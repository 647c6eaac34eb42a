//! The calls into outside crates, each behind a contract.
use vstd::prelude::*;
use crate::chunk::{Chunk, CHUNK_AREA, in_chunk};
use crate::coord::{Coord, orthogonal_neighbours};
use crate::carving::{cheapest_to_floor, cheapest_walk, reached, search_walk, searchable, CarveError};
use crate::map::{extends, held_view, is_route, is_world_route, is_route_target, path_cost, route_heuristic, Tile, World};

verus! {

/// One word of `FxHasher32`: rotate left by 5, xor the word, multiply by
/// the seed constant.
pub open spec fn fx_word(h: u32, w: u32) -> u32 {
    (((h << 5u32) | (h >> 27u32)) ^ w).wrapping_mul(0x27220a95u32)
}

/// What `fxhash::hash32` gives for the pair `(x, y)`: each `i32` is written
/// as one `u32` word, starting from 0.
pub open spec fn coord_hash(x: i32, y: i32) -> u32 {
    fx_word(fx_word(0, x as u32), y as u32)
}

/// Relies on `fxhash::hash32`: a tuple hashes its fields in order, an
/// `i32` is written through `write_u32`, and `FxHasher32` folds each word
/// in as `fx_word` does.
#[verifier::external_body]
pub(crate) fn hash_coord(c: Coord) -> (r: u32)
    ensures
        r == coord_hash(c.x, c.y),
{
    fxhash::hash32(&(c.x, c.y))
}

/// What `pathfinding::astar` finds from `start` to `end` over a grid with
/// these tiles and awkward tiles, under the tunnel cost model.
pub uninterp spec fn tunnel_path(tiles: Seq<Tile>, awkward_tiles: Seq<bool>, start: Coord, end: Coord) -> Option<
    Seq<Coord>,
>;

/// Relies on `pathfinding::astar`: deterministic (its queue and its map of
/// parents are unseeded), so its result depends on the start, the goal and
/// the successors and heuristic it is handed, which here depend on the
/// tiles, the awkward tiles and `end` alone. It gives `None` only when no
/// path exists, and otherwise a path of least total step cost: the
/// Manhattan distance to `end` never overestimates, since every step costs
/// at least 1. A path it returns starts at
/// `start`, ends where the goal test (here: being `end`) holds, and takes
/// each step to a neighbour listed by `Chunk::pathfinding_successors`, which
/// lists only searchable orthogonal neighbours.
#[verifier::external_body]
pub(crate) fn tunnel_search(chunk: &Chunk, awkward_tiles: &Vec<bool>, start: Coord, end: Coord) -> (r:
    Option<Vec<Coord>>)
    requires
        chunk.wf(),
        awkward_tiles@.len() == CHUNK_AREA,
        in_chunk(start),
        in_chunk(end),
    ensures
        r is None ==> tunnel_path(chunk.tiles@, awkward_tiles@, start, end) is None,
        r is None ==> forall|p: Seq<Coord>| #[trigger] search_walk(p, start) ==> p.last() != end,
        r matches Some(p) ==> tunnel_path(chunk.tiles@, awkward_tiles@, start, end) == Some(p@),
        r matches Some(p) ==> cheapest_walk(chunk.tiles@, awkward_tiles@, start, end, p@),
        r matches Some(p) ==> {
            &&& p@.len() > 0
            &&& p@[0] == start
            &&& p@.last() == end
            &&& forall|i: int| 1 <= i < p@.len() ==> searchable(#[trigger] p@[i])
            &&& forall|i: int|
                0 <= i < p@.len() - 1 ==> orthogonal_neighbours(#[trigger] p@[i], p@[i + 1])
        },
{
    let successors = |c: &Coord| chunk.pathfinding_successors(*c, awkward_tiles);
    let heuristic = |c: &Coord| c.distance(end);
    let success = |c: &Coord| reached(c, end);
    pathfinding::prelude::astar(&start, successors, heuristic, success).map(|(path, _)| path)
}

/// What `pathfinding::dijkstra` finds from `start` to the nearest floor tile
/// over a grid with these tiles and awkward tiles, under the tunnel cost
/// model.
pub uninterp spec fn entry_path(tiles: Seq<Tile>, awkward_tiles: Seq<bool>, start: Coord) -> Option<Seq<Coord>>;

/// Relies on `pathfinding::dijkstra`: deterministic, so its result depends
/// on the start and on the successors and goal test it is handed, which
/// here depend on the tiles and the awkward tiles alone. It gives `None`
/// only when no goal tile can be reached, and otherwise a path of least
/// total step cost to a goal tile. A path it returns
/// starts at `start`, ends on a tile where the goal test `Chunk::is_floor`
/// holds, and takes each step to a neighbour listed by
/// `Chunk::pathfinding_successors`.
#[verifier::external_body]
pub(crate) fn entry_search(chunk: &Chunk, awkward_tiles: &Vec<bool>, start: Coord) -> (r: Option<
    Vec<Coord>,
>)
    requires
        chunk.wf(),
        awkward_tiles@.len() == CHUNK_AREA,
        in_chunk(start),
    ensures
        r is None ==> entry_path(chunk.tiles@, awkward_tiles@, start) is None,
        r is None ==> forall|p: Seq<Coord>|
            #[trigger] search_walk(p, start) ==> !(in_chunk(p.last()) && chunk.tile(p.last()) == Tile::Floor),
        r matches Some(p) ==> entry_path(chunk.tiles@, awkward_tiles@, start) == Some(p@),
        r matches Some(p) ==> cheapest_to_floor(chunk.tiles@, awkward_tiles@, start, p@),
        r matches Some(p) ==> {
            &&& p@.len() > 0
            &&& p@[0] == start
            &&& in_chunk(p@.last()) && chunk.tile(p@.last()) == Tile::Floor
            &&& forall|i: int| 1 <= i < p@.len() ==> searchable(#[trigger] p@[i])
            &&& forall|i: int|
                0 <= i < p@.len() - 1 ==> orthogonal_neighbours(#[trigger] p@[i], p@[i + 1])
        },
{
    let successors = |c: &Coord| chunk.pathfinding_successors(*c, awkward_tiles);
    let success = |c: &Coord| chunk.is_floor(c);
    pathfinding::prelude::dijkstra(&start, successors, success).map(|(path, _): (Vec<Coord>, u32)| path)
}

/// Whether a chain of `edges` (either way round) links `a` to `b`.
pub open spec fn edge_linked(edges: Seq<(Coord, Coord)>, a: Coord, b: Coord) -> bool {
    exists|w: Seq<Coord>|
        w.len() > 0 && w[0] == a && w.last() == b && forall|i: int|
            0 <= i < w.len() - 1 ==> #[trigger] has_edge(edges, w[i], w[i + 1])
}

/// Whether `edges` holds the edge between `a` and `b`, either way round.
pub open spec fn has_edge(edges: Seq<(Coord, Coord)>, a: Coord, b: Coord) -> bool {
    exists|j: int| 0 <= j < edges.len() && (#[trigger] edges[j] == (a, b) || edges[j] == (b, a))
}

/// The endpoints of weighted edges.
pub open spec fn endpoints(edges: Seq<(Coord, Coord, u64)>) -> Seq<(Coord, Coord)> {
    Seq::new(edges.len(), |j: int| (edges[j].0, edges[j].1))
}

/// What `pathfinding::kruskal` gives for `edges`, endpoints only.
pub uninterp spec fn spanning_of(edges: Seq<(Coord, Coord, u64)>) -> Seq<(Coord, Coord)>;

/// Relies on `pathfinding::kruskal`: deterministic, so the edges of the
/// minimum spanning forest it gives depend on `edges` alone, each is
/// taken from `edges`, and, being a spanning forest, they link every two
/// nodes that `edges` link.
#[verifier::external_body]
pub(crate) fn spanning_edges(edges: &Vec<(Coord, Coord, u64)>) -> (r: Vec<(Coord, Coord)>)
    ensures
        r@ == spanning_of(edges@),
        forall|a: Coord, b: Coord| #[trigger] edge_linked(endpoints(edges@), a, b) ==> edge_linked(r@, a, b),
        forall|i: int|
            0 <= i < r@.len() ==> exists|j: int|
                0 <= j < edges@.len() && #[trigger] r@[i] == (edges@[j].0, edges@[j].1),
{
    pathfinding::prelude::kruskal(edges).map(|(a, b, _)| (*a, *b)).collect()
}

/// What `pathfinding::astar` finds from `start` towards `targets` within
/// `threshold` in the world seeded `seed` that holds the chunks `held`
/// (chunks it reaches are generated from the seed), and whether some chunk
/// it reached could not be generated.
pub uninterp spec fn route_of(
    held: Seq<(Coord, Seq<Tile>)>,
    seed: u32,
    start: Coord,
    targets: Seq<Coord>,
    threshold: u32,
) -> (Option<Seq<Coord>>, bool);

/// Relies on `pathfinding::astar`: deterministic, and what it explores
/// depends on the held chunks, the seed that generates the others, the
/// start, the targets and the threshold alone. It returns a cheapest path
/// when the heuristic never overestimates (the octile distance does not),
/// and `None` only when no path exists, both over the world it explores:
/// the chunks held, and for the others the chunks the seed generates, which
/// is what `World::route_successors` reads; a chunk that fails to generate is
/// recorded in `failure` and counts as blocked; `World::route_successors`
/// leaves `failure` as it was, since every chunk generates. A path it returns starts at
/// `start`,
/// ends where the goal test `is_route_target` holds, and takes each step to
/// a tile listed by `World::route_successors`, which lists only walkable
/// tiles one king's move away whose move cuts no corner, and only ever adds
/// chunks to the world (so what was walkable stays walkable). Costs are
/// `u64`, so sums of step costs cannot overflow.
#[verifier::external_body]
pub(crate) fn route_search(
    world: &mut World,
    start: Coord,
    targets: &Vec<Coord>,
    threshold: u32,
    failure: &mut Option<CarveError>,
) -> (r: Option<Vec<Coord>>)
    requires
        old(world).wf(),
        *old(failure) is None,
    ensures
        *final(failure) is None,
        final(world).wf(),
        final(world).chunks.seed == old(world).chunks.seed,
        extends(old(world).held(), final(world).held()),
        (*final(failure) is Some) == route_of(
            held_view(old(world).held()),
            old(world).chunks.seed,
            start,
            targets@,
            threshold,
        ).1,
        r is None ==> route_of(held_view(old(world).held()), old(world).chunks.seed, start, targets@, threshold).0 is None,
        r matches Some(p) ==> route_of(held_view(old(world).held()), old(world).chunks.seed, start, targets@, threshold).0
            == Some(p@),
        r matches Some(p) ==> is_route(final(world).held(), targets@, threshold, start, p@),
        r matches Some(p) ==> is_world_route(old(world).held(), old(world).chunks.seed, targets@, threshold, start, p@),
        r matches Some(p) ==> forall|q: Seq<Coord>|
            #[trigger] is_world_route(old(world).held(), old(world).chunks.seed, targets@, threshold, start, q)
                ==> path_cost(p@) <= path_cost(q),
        r is None ==> forall|q: Seq<Coord>|
            !#[trigger] is_world_route(old(world).held(), old(world).chunks.seed, targets@, threshold, start, q),
{
    let successors = |c: &Coord| world.route_successors(*c, targets, threshold, failure);
    let heuristic = |c: &Coord| route_heuristic(c, targets);
    let success = |c: &Coord| is_route_target(c, targets);
    pathfinding::prelude::astar(&start, successors, heuristic, success).map(|(path, _)| path)
}

} // verus!
