//! Building a chunk: rooms, the tunnels that join them, the entries on the
//! chunk's border, barriers in doorways, and the features inside rooms.
use vstd::prelude::*;
use crate::chunk::{
    in_chunk, is_walk, tile_at,
    index_coord, joined, keeps_passable, lemma_index_coord, lemma_joined_kept,
    lemma_joined_refl, lemma_joined_symm, lemma_joined_trans, passable, tile_index, Chunk,
    CHUNK_AREA,
};
use crate::coord::{coord, orthogonal_neighbours, Coord};
use crate::map::Tile;
use crate::random::{chance_hit, draw, step, Random};
use crate::rooms::{random_room_spec, room_center, room_gap, room_ok, starting_room, Room};
use crate::outside::spanning_of;
use crate::triangulation::triangulation;
use crate::carving::{on_path, filled, lemma_filled_new_on_walk, lemma_filled_walk_joined, lemma_walk_in_chunk, search_walk, cheapest_walk, cheapest_to_floor, has_floor, lemma_dug_keeps_floor, stamped, awkward_grid, stamp_all, stitched, carved, in_room, lemma_dug_keeps_passable, lemma_dug_trans, only_dug, CarveError};
use crate::barriers::{barred, entry_point, lemma_barred_keeps_passable, ENTRIES_PER_SIDE};
use crate::features::{featured_from, features};
use crate::geometry::Point;
use crate::chunk::Chest;

verus! {

/// Attempts at placing a random room in one chunk.
pub const MAX_ROOM_ATTEMPTS: usize = 2500;

/// Smallest gap allowed between two rooms.
pub const ROOM_GAP: u32 = 1;

/// Chance, as a fraction, that a triangulation edge is carved on top of the
/// spanning tree.
pub const EXTRA_EDGE_NUM: u32 = 33;

pub const EXTRA_EDGE_DEN: u32 = 100;

/// Rooms that fit the chunk, keep their distance from each other, and of
/// which only the first of chunk (0, 0) is the starting room.
pub open spec fn rooms_ok(chunk: Coord, rooms: Seq<Room>) -> bool {
    &&& forall|k: int| 0 <= k < rooms.len() ==> room_ok(#[trigger] rooms[k])
    &&& forall|i: int, j: int|
        0 <= i < j < rooms.len() ==> room_gap(#[trigger] rooms[j], #[trigger] rooms[i]) >= ROOM_GAP
    &&& forall|k: int|
        0 <= k < rooms.len() ==> (#[trigger] rooms[k]).is_starting ==> k == 0 && chunk == Coord {
            x: 0,
            y: 0,
        }
    &&& chunk == (Coord { x: 0, y: 0 }) ==> rooms.len() > 0 && rooms[0] == starting_room()
}

/// Whether `room` keeps its distance from every room of `rooms`.
pub open spec fn accepts(rooms: Seq<Room>, room: Room) -> bool {
    forall|j: int| 0 <= j < rooms.len() ==> room_gap(room, #[trigger] rooms[j]) >= ROOM_GAP
}

/// `n` placement attempts from state `s`, each keeping the random room it
/// draws when that room keeps its distance from those kept so far.
pub open spec fn place_rooms(s: u32, n: nat, rooms: Seq<Room>) -> (u32, Seq<Room>)
    decreases n,
{
    if n == 0 {
        (s, rooms)
    } else {
        let (s2, room) = random_room_spec(s);
        place_rooms(s2, (n - 1) as nat, if accepts(rooms, room) { rooms.push(room) } else { rooms })
    }
}

/// The rooms a chunk starts from: the starting room in chunk (0, 0) only.
pub open spec fn initial_rooms(c: Coord) -> Seq<Room> {
    if c == (Coord { x: 0, y: 0 }) { seq![starting_room()] } else { seq![] }
}

/// The rooms placed in chunk `c` from state `s`, with the state reached.
pub open spec fn rooms_spec(c: Coord, s: u32) -> (u32, Seq<Room>) {
    place_rooms(s, MAX_ROOM_ATTEMPTS as nat, initial_rooms(c))
}

/// Rooms with equal labels have joined centers.
pub open spec fn labels_joined(tiles: Seq<Tile>, rooms: Seq<Room>, labels: Seq<usize>) -> bool {
    forall|i: int, j: int|
        0 <= i < rooms.len() && 0 <= j < rooms.len() && #[trigger] labels[i] == #[trigger] labels[j]
            ==> joined(tiles, room_center(rooms[i]), room_center(rooms[j]))
}

/// Every open tile is joined to the center of some room.
#[verifier::opaque]
pub open spec fn reaches_rooms(tiles: Seq<Tile>, rooms: Seq<Room>) -> bool {
    forall|c: Coord|
        #[trigger] passable(tiles, c) ==> exists|k: int| 0 <= k < rooms.len() && joined(tiles, c, room_center(rooms[k]))
}

/// A walk inside room `r` from `a` to `b`, one straight run along each
/// axis.
proof fn lemma_room_walk(r: Room, a: Coord, b: Coord) -> (p: Seq<Coord>)
    requires
        in_room(r, a),
        in_room(r, b),
    ensures
        p.len() > 0,
        p[0] == a,
        p.last() == b,
        forall|i: int| 0 <= i < p.len() ==> in_room(r, #[trigger] p[i]),
        forall|i: int| 0 <= i < p.len() - 1 ==> orthogonal_neighbours(#[trigger] p[i], p[i + 1]),
    decreases crate::coord::manhattan(a, b),
{
    if a == b {
        seq![a]
    } else {
        let n = if a.x < b.x {
            Coord { x: (a.x + 1) as i32, y: a.y }
        } else if a.x > b.x {
            Coord { x: (a.x - 1) as i32, y: a.y }
        } else if a.y < b.y {
            Coord { x: a.x, y: (a.y + 1) as i32 }
        } else {
            Coord { x: a.x, y: (a.y - 1) as i32 }
        };
        let rest = lemma_room_walk(r, n, b);
        let p = seq![a] + rest;
        assert forall|i: int| 0 <= i < p.len() implies in_room(r, #[trigger] p[i]) by {
            if i > 0 {
                assert(p[i] == rest[i - 1]);
            }
        }
        assert forall|i: int| 0 <= i < p.len() - 1 implies orthogonal_neighbours(#[trigger] p[i], p[i + 1]) by {
            if i == 0 {
                assert(p[1] == rest[0]);
            } else {
                assert(p[i] == rest[i - 1] && p[i + 1] == rest[i]);
            }
        }
        assert(p.last() == rest.last());
        p
    }
}

/// Whether the grid is solid wall.
pub open spec fn all_walls(tiles: Seq<Tile>) -> bool {
    forall|c: Coord| in_chunk(c) ==> #[trigger] tile_at(tiles, c) == Tile::Wall
}

/// In a grid whose open tiles all lie in rooms that are open throughout,
/// every open tile reaches the center of its room.
proof fn lemma_reach_from_rooms(tiles: Seq<Tile>, rooms: Seq<Room>)
    requires
        forall|k: int| 0 <= k < rooms.len() ==> room_ok(#[trigger] rooms[k]),
        rooms_open(tiles, rooms),
        forall|c: Coord| #[trigger] passable(tiles, c) ==> exists|k: int| 0 <= k < rooms.len() && in_room(rooms[k], c),
    ensures
        reaches_rooms(tiles, rooms),
{
    reveal(reaches_rooms);
    assert forall|c: Coord| #[trigger] passable(tiles, c) implies exists|k: int|
        0 <= k < rooms.len() && joined(tiles, c, room_center(rooms[k])) by {
        let k = choose|k: int| 0 <= k < rooms.len() && in_room(rooms[k], c);
        let r = rooms[k];
        assert(room_ok(r));
        let p = lemma_room_walk(r, c, room_center(r));
        assert forall|i: int| 0 <= i < p.len() implies passable(tiles, #[trigger] p[i]) by {
            assert(in_room(rooms[k], p[i]));
        }
        assert(is_walk(tiles, p));
    }
}

/// Open tiles keep reaching rooms when tiles are only opened further, and
/// each newly opened tile reaches a room.
proof fn lemma_reach_kept(t0: Seq<Tile>, t1: Seq<Tile>, rooms: Seq<Room>)
    requires
        reaches_rooms(t0, rooms),
        keeps_passable(t0, t1),
        forall|c: Coord|
            passable(t1, c) && !passable(t0, c) ==> exists|k: int|
                0 <= k < rooms.len() && #[trigger] joined(t1, c, room_center(rooms[k])),
    ensures
        reaches_rooms(t1, rooms),
{
    reveal(reaches_rooms);
    assert forall|c: Coord| #[trigger] passable(t1, c) implies exists|k: int|
        0 <= k < rooms.len() && joined(t1, c, room_center(rooms[k])) by {
        if passable(t0, c) {
            let k = choose|k: int| 0 <= k < rooms.len() && joined(t0, c, room_center(rooms[k]));
            lemma_joined_kept(t0, t1, c, room_center(rooms[k]));
        }
    }
}

/// Filling a walk that starts at a room center keeps open tiles reaching
/// rooms.
proof fn lemma_reach_after_tunnel(t0: Seq<Tile>, p: Seq<Coord>, rooms: Seq<Room>, a: int)
    requires
        t0.len() == CHUNK_AREA,
        reaches_rooms(t0, rooms),
        0 <= a < rooms.len(),
        room_ok(rooms[a]),
        search_walk(p, room_center(rooms[a])),
        only_dug(t0, filled(t0, p)),
    ensures
        reaches_rooms(filled(t0, p), rooms),
{
    reveal(reaches_rooms);
    let t1 = filled(t0, p);
    let ca = room_center(rooms[a]);
    lemma_dug_keeps_passable(t0, t1);
    assert forall|c: Coord| passable(t1, c) && !passable(t0, c) implies exists|k: int|
        0 <= k < rooms.len() && #[trigger] joined(t1, c, room_center(rooms[k])) by {
        lemma_filled_new_on_walk(t0, p, c);
        let j = choose|j: int| 0 <= j < p.len() && p[j] == c;
        lemma_filled_walk_joined(t0, p, ca, j);
    }
    lemma_reach_kept(t0, t1, rooms);
}

/// Filling a walk that ends on an open tile keeps open tiles reaching
/// rooms, and its start then reaches every room the end reaches.
proof fn lemma_reach_after_entry(t0: Seq<Tile>, p: Seq<Coord>, start: Coord, rooms: Seq<Room>)
    requires
        t0.len() == CHUNK_AREA,
        reaches_rooms(t0, rooms),
        in_chunk(start),
        search_walk(p, start),
        passable(t0, p.last()),
        only_dug(t0, filled(t0, p)),
    ensures
        reaches_rooms(filled(t0, p), rooms),
        passable(filled(t0, p), start),
{
    reveal(reaches_rooms);
    let t1 = filled(t0, p);
    let f = p.last();
    lemma_dug_keeps_passable(t0, t1);
    let kf = choose|k: int| 0 <= k < rooms.len() && joined(t0, f, room_center(rooms[k]));
    lemma_joined_kept(t0, t1, f, room_center(rooms[kf]));
    assert forall|c: Coord| passable(t1, c) && !passable(t0, c) implies exists|k: int|
        0 <= k < rooms.len() && #[trigger] joined(t1, c, room_center(rooms[k])) by {
        lemma_filled_new_on_walk(t0, p, c);
        let j = choose|j: int| 0 <= j < p.len() && p[j] == c;
        lemma_filled_walk_joined(t0, p, start, j);
        lemma_joined_trans(t1, c, f, room_center(rooms[kf]));
    }
    lemma_reach_kept(t0, t1, rooms);
    lemma_filled_walk_joined(t0, p, start, 0);
    lemma_walk_in_chunk(p, start, 0);
    lemma_index_coord(start);
    assert(on_path(p, index_coord(tile_index(start))));
}

/// Every pair of room centers is joined.
pub open spec fn all_rooms_joined(tiles: Seq<Tile>, rooms: Seq<Room>) -> bool {
    forall|i: int, j: int|
        0 <= i < rooms.len() && 0 <= j < rooms.len() ==> joined(
            tiles,
            room_center(#[trigger] rooms[i]),
            room_center(#[trigger] rooms[j]),
        )
}

/// Every room center is passable.
pub open spec fn centers_passable(tiles: Seq<Tile>, rooms: Seq<Room>) -> bool {
    forall|k: int| 0 <= k < rooms.len() ==> passable(tiles, room_center(#[trigger] rooms[k]))
}

proof fn lemma_labels_kept(t0: Seq<Tile>, t1: Seq<Tile>, rooms: Seq<Room>, labels: Seq<usize>)
    requires
        labels_joined(t0, rooms, labels),
        keeps_passable(t0, t1),
    ensures
        labels_joined(t1, rooms, labels),
{
    assert forall|i: int, j: int|
        0 <= i < rooms.len() && 0 <= j < rooms.len() && #[trigger] labels[i] == #[trigger] labels[j]
            implies joined(t1, room_center(rooms[i]), room_center(rooms[j])) by {
        lemma_joined_kept(t0, t1, room_center(rooms[i]), room_center(rooms[j]));
    }
}

proof fn lemma_centers_kept(t0: Seq<Tile>, t1: Seq<Tile>, rooms: Seq<Room>)
    requires
        centers_passable(t0, rooms),
        keeps_passable(t0, t1),
    ensures
        centers_passable(t1, rooms),
{
    assert forall|k: int| 0 <= k < rooms.len() implies passable(t1, room_center(#[trigger] rooms[k])) by {
        assert(passable(t0, room_center(rooms[k])));
    }
}

/// Relabelling the rooms labelled like `b` with the label of `a` keeps
/// equal labels joined once the centers of `a` and `b` are joined.
proof fn lemma_merge_labels(t1: Seq<Tile>, rs: Seq<Room>, l0: Seq<usize>, l1: Seq<usize>, a: int, b: int)
    requires
        0 <= a < rs.len(),
        0 <= b < rs.len(),
        l0.len() == rs.len(),
        l1.len() == rs.len(),
        labels_joined(t1, rs, l0),
        joined(t1, room_center(rs[a]), room_center(rs[b])),
        forall|j: int| 0 <= j < rs.len() ==> #[trigger] l1[j] == if l0[j] == l0[b] { l0[a] } else { l0[j] },
    ensures
        labels_joined(t1, rs, l1),
{
    let (la, lb) = (l0[a], l0[b]);
    let (ca, cb) = (room_center(rs[a]), room_center(rs[b]));
    assert forall|i: int, j: int|
        0 <= i < rs.len() && 0 <= j < rs.len() && #[trigger] l1[i] == #[trigger] l1[j]
            implies joined(t1, room_center(rs[i]), room_center(rs[j])) by {
        let (ci, cj) = (room_center(rs[i]), room_center(rs[j]));
        if l0[i] == lb && l0[j] == lb {
            assert(l0[i] == l0[j]);
        } else if l0[i] == lb {
            assert(l0[i] == l0[b]);
            assert(l0[a] == l0[j]);
            assert(joined(t1, ci, cb));
            assert(joined(t1, ca, cj));
            lemma_joined_symm(t1, ca, cb);
            lemma_joined_trans(t1, ci, cb, ca);
            lemma_joined_trans(t1, ci, ca, cj);
        } else if l0[j] == lb {
            assert(l0[j] == l0[b]);
            assert(l0[i] == l0[a]);
            assert(joined(t1, cb, cj));
            assert(joined(t1, ci, ca));
            lemma_joined_trans(t1, ci, ca, cb);
            lemma_joined_trans(t1, ci, cb, cj);
        } else {
            assert(l0[i] == l0[j]);
        }
    }
}

/// Labels after giving every room labelled like `b` the label of `a`.
pub open spec fn relabel(labels: Seq<usize>, a: int, b: int) -> Seq<usize> {
    Seq::new(labels.len(), |k: int| if labels[k] == labels[b] { labels[a] } else { labels[k] })
}

/// Whether `k` is the first room whose center is `c`.
pub open spec fn first_center_at(rooms: Seq<Room>, c: Coord, k: int) -> bool {
    &&& 0 <= k < rooms.len()
    &&& room_center(rooms[k]) == c
    &&& forall|j: int| 0 <= j < k ==> room_center(#[trigger] rooms[j]) != c
}

/// The first room whose center is `c`, if any.
pub open spec fn first_center(rooms: Seq<Room>, c: Coord) -> Option<int> {
    if exists|k: int| first_center_at(rooms, c, k) {
        Some(choose|k: int| first_center_at(rooms, c, k))
    } else {
        None
    }
}

/// Tiles and labels after joining rooms `a` and `b`, if the tunnel is found.
pub open spec fn joined_step(
    tiles: Seq<Tile>,
    labels: Seq<usize>,
    rooms: Seq<Room>,
    awkward_tiles: Seq<bool>,
    a: int,
    b: int,
) -> Option<(Seq<Tile>, Seq<usize>)> {
    match carved(tiles, awkward_tiles, room_center(rooms[a]), room_center(rooms[b])) {
        Some(t) => Some((t, relabel(labels, a, b))),
        None => None,
    }
}

/// Joins the rooms at the ends of an edge, when both ends are room centers.
pub open spec fn edge_step(
    tiles: Seq<Tile>,
    labels: Seq<usize>,
    rooms: Seq<Room>,
    awkward_tiles: Seq<bool>,
    a: Coord,
    b: Coord,
) -> Option<(Seq<Tile>, Seq<usize>)> {
    match (first_center(rooms, a), first_center(rooms, b)) {
        (Some(ia), Some(ib)) => joined_step(tiles, labels, rooms, awkward_tiles, ia, ib),
        _ => Some((tiles, labels)),
    }
}

/// Joining along the first `n` edges of the spanning tree.
pub open spec fn tree_fold(
    tiles: Seq<Tile>,
    labels: Seq<usize>,
    rooms: Seq<Room>,
    awkward_tiles: Seq<bool>,
    tree: Seq<(Coord, Coord)>,
    n: int,
) -> Option<(Seq<Tile>, Seq<usize>)>
    decreases n,
{
    if n <= 0 {
        Some((tiles, labels))
    } else {
        match tree_fold(tiles, labels, rooms, awkward_tiles, tree, n - 1) {
            Some((t, l)) => edge_step(t, l, rooms, awkward_tiles, tree[n - 1].0, tree[n - 1].1),
            None => None,
        }
    }
}

/// Joining along each of the first `n` triangulation edges with the extra
/// edge chance, drawing from state `s`.
pub open spec fn extra_fold(
    tiles: Seq<Tile>,
    labels: Seq<usize>,
    s: u32,
    rooms: Seq<Room>,
    awkward_tiles: Seq<bool>,
    edges: Seq<(Coord, Coord, u64)>,
    n: int,
) -> Option<(Seq<Tile>, Seq<usize>, u32)>
    decreases n,
{
    if n <= 0 {
        Some((tiles, labels, s))
    } else {
        match extra_fold(tiles, labels, s, rooms, awkward_tiles, edges, n - 1) {
            Some((t, l, st)) => if chance_hit(draw(st), EXTRA_EDGE_NUM, EXTRA_EDGE_DEN) {
                match edge_step(t, l, rooms, awkward_tiles, edges[n - 1].0, edges[n - 1].1) {
                    Some((t2, l2)) => Some((t2, l2, step(st))),
                    None => None,
                }
            } else {
                Some((t, l, step(st)))
            },
            None => None,
        }
    }
}

/// Joining each of the rooms `1..k` still apart from the first to it.
pub open spec fn rejoin_fold(
    tiles: Seq<Tile>,
    labels: Seq<usize>,
    rooms: Seq<Room>,
    awkward_tiles: Seq<bool>,
    k: int,
) -> Option<(Seq<Tile>, Seq<usize>)>
    decreases k,
{
    if k <= 1 {
        Some((tiles, labels))
    } else {
        match rejoin_fold(tiles, labels, rooms, awkward_tiles, k - 1) {
            Some((t, l)) => if l[k - 1] != l[0] {
                joined_step(t, l, rooms, awkward_tiles, 0, k - 1)
            } else {
                Some((t, l))
            },
            None => None,
        }
    }
}

/// The three edges of each triangle, weighted by squared length.
pub open spec fn triangle_edges(tris: Seq<(Coord, Coord, Coord)>) -> Seq<(Coord, Coord, u64)>
    decreases tris.len(),
{
    if tris.len() == 0 {
        seq![]
    } else {
        let (a, b, c) = tris.last();
        triangle_edges(tris.drop_last()).push((a, b, squared_length(a, b))).push(
            (b, c, squared_length(b, c)),
        ).push((c, a, squared_length(c, a)))
    }
}

/// Squared length of the edge `ab`.
pub open spec fn squared_length(a: Coord, b: Coord) -> u64 {
    ((a.x - b.x) * (a.x - b.x) + (a.y - b.y) * (a.y - b.y)) as u64
}

/// The room centers.
pub open spec fn centers_of(rooms: Seq<Room>) -> Seq<Coord> {
    Seq::new(rooms.len(), |k: int| room_center(rooms[k]))
}

/// The tiles and state after joining `rooms`, or `None` when a tunnel is
/// not found.
pub open spec fn connected(tiles: Seq<Tile>, s: u32, rooms: Seq<Room>, awkward_tiles: Seq<bool>) -> Option<
    (Seq<Tile>, u32),
> {
    let edges = triangle_edges(triangulation(centers_of(rooms)));
    let tree = spanning_of(edges);
    let labels = Seq::new(rooms.len(), |k: int| k as usize);
    match tree_fold(tiles, labels, rooms, awkward_tiles, tree, tree.len() as int) {
        Some((t1, l1)) => match extra_fold(t1, l1, s, rooms, awkward_tiles, edges, edges.len() as int) {
            Some((t2, l2, s2)) => match rejoin_fold(t2, l2, rooms, awkward_tiles, rooms.len() as int) {
                Some((t3, l3)) => Some((t3, s2)),
                None => None,
            },
            None => None,
        },
        None => None,
    }
}

/// Index of the first room whose center is `c`.
fn room_index(rooms: &Vec<Room>, c: Coord) -> (r: Option<usize>)
    requires
        forall|k: int| 0 <= k < rooms@.len() ==> room_ok(#[trigger] rooms@[k]),
    ensures
        r matches Some(k) ==> k < rooms@.len() && room_center(rooms@[k as int]) == c,
        r is None ==> forall|k: int| 0 <= k < rooms@.len() ==> room_center(#[trigger] rooms@[k]) != c,
        r matches Some(k) ==> first_center(rooms@, c) == Some(k as int),
        r is None ==> first_center(rooms@, c) is None,
{
    let mut k: usize = 0;
    while k < rooms.len()
        invariant
            k <= rooms@.len(),
            forall|j: int| 0 <= j < rooms@.len() ==> room_ok(#[trigger] rooms@[j]),
            forall|j: int| 0 <= j < k ==> room_center(#[trigger] rooms@[j]) != c,
        decreases rooms@.len() - k,
    {
        let m = rooms[k].center();
        if m.x == c.x && m.y == c.y {
            proof {
                assert(first_center_at(rooms@, c, k as int));
                let k2 = choose|k2: int| first_center_at(rooms@, c, k2);
                if k2 < k {
                } else if k2 > k {
                    assert(room_center(rooms@[k as int]) != c);
                }
            }
            return Some(k);
        }
        k = k + 1;
    }
    proof {
        if exists|k2: int| first_center_at(rooms@, c, k2) {
            let k2 = choose|k2: int| first_center_at(rooms@, c, k2);
            assert(room_center(rooms@[k2]) != c);
        }
    }
    None
}

impl Chunk {
    /// Rooms for this chunk: the starting room first in chunk (0, 0), then
    /// every random room that keeps its distance from those already kept.
    pub fn generate_rooms(&self, random: &mut Random) -> (r: Vec<Room>)
        ensures
            rooms_ok(self.coord, r@),
            (final(random).state, r@) == rooms_spec(self.coord, old(random).state),
            r@.len() > 0,
    {
        let mut rooms: Vec<Room> = Vec::new();
        if self.coord.x == 0 && self.coord.y == 0 {
            rooms.push(Room::starting());
        }
        proof {
            assert(rooms@ =~= initial_rooms(self.coord));
        }
        let mut attempt: usize = 0;
        while attempt < MAX_ROOM_ATTEMPTS
            invariant
                attempt <= MAX_ROOM_ATTEMPTS,
                attempt > 0 ==> rooms@.len() > 0,
                rooms_ok(self.coord, rooms@),
                rooms_spec(self.coord, old(random).state) == place_rooms(
                    random.state,
                    (MAX_ROOM_ATTEMPTS - attempt) as nat,
                    rooms@,
                ),
            decreases MAX_ROOM_ATTEMPTS - attempt,
        {
            let room = Room::random(random);
            let mut clear = true;
            let mut k: usize = 0;
            while k < rooms.len()
                invariant
                    k <= rooms@.len(),
                    rooms_ok(self.coord, rooms@),
                    room_ok(room),
                    clear <==> forall|j: int| 0 <= j < k ==> room_gap(room, #[trigger] rooms@[j]) >= ROOM_GAP,
                decreases rooms@.len() - k,
            {
                if room.distance(rooms[k]) < ROOM_GAP {
                    clear = false;
                }
                k = k + 1;
            }
            if clear {
                let ghost before = rooms@;
                rooms.push(room);
                proof {
                    assert forall|i: int, j: int|
                        0 <= i < j < rooms@.len() implies room_gap(#[trigger] rooms@[j], #[trigger] rooms@[i])
                        >= ROOM_GAP by {
                        if j < before.len() {
                            assert(rooms@[j] == before[j] && rooms@[i] == before[i]);
                        }
                    }
                }
            }
            attempt = attempt + 1;
        }
        rooms
    }

    /// Carves a tunnel between the centers of rooms `a` and `b` and gives
    /// every room labelled like `b` the label of `a`.
    fn join_rooms(
        &mut self,
        rooms: &Vec<Room>,
        labels: &mut Vec<usize>,
        a: usize,
        b: usize,
        awkward_tiles: &Vec<bool>,
    ) -> (r: Result<(), CarveError>)
        requires
            old(self).wf(),
            awkward_tiles@.len() == CHUNK_AREA,
            forall|k: int| 0 <= k < rooms@.len() ==> room_ok(#[trigger] rooms@[k]),
            old(labels)@.len() == rooms@.len(),
            a < rooms@.len(),
            b < rooms@.len(),
            labels_joined(old(self).tiles@, rooms@, old(labels)@),
            centers_passable(old(self).tiles@, rooms@),
        ensures
            r is Ok,
            final(self).wf(),
            final(self).coord == old(self).coord,
            final(self).spawners == old(self).spawners,
            final(self).chests == old(self).chests,
            final(self).decorations == old(self).decorations,
            only_dug(old(self).tiles@, final(self).tiles@),
            final(labels)@.len() == rooms@.len(),
            labels_joined(final(self).tiles@, rooms@, final(labels)@),
            reaches_rooms(old(self).tiles@, rooms@) ==> reaches_rooms(final(self).tiles@, rooms@),
            centers_passable(final(self).tiles@, rooms@),
            r is Ok ==> forall|k: int|
                0 <= k < rooms@.len() ==> #[trigger] final(labels)@[k] == if old(labels)@[k] == old(
                    labels,
                )@[b as int] {
                    old(labels)@[a as int]
                } else {
                    old(labels)@[k]
                },
            r is Ok <==> joined_step(old(self).tiles@, old(labels)@, rooms@, awkward_tiles@, a as int, b as int) is Some,
            r is Ok ==> joined_step(old(self).tiles@, old(labels)@, rooms@, awkward_tiles@, a as int, b as int)
                == Some((final(self).tiles@, final(labels)@)),
    {
        let ghost t0 = self.tiles@;
        let ca = rooms[a].center();
        let cb = rooms[b].center();
        let res = self.create_path(ca, cb, awkward_tiles);
        proof {
            if res.is_ok() && reaches_rooms(t0, rooms@) {
                let p = choose|p: Seq<Coord>|
                    #[trigger] cheapest_walk(t0, awkward_tiles@, ca, cb, p) && self.tiles@ == filled(t0, p);
                lemma_reach_after_tunnel(t0, p, rooms@, a as int);
            }
            lemma_dug_keeps_passable(t0, self.tiles@);
            lemma_labels_kept(t0, self.tiles@, rooms@, labels@);
            lemma_centers_kept(t0, self.tiles@, rooms@);
        }
        if res.is_err() {
            return Err(CarveError::NoPath);
        }
        let la = labels[a];
        let lb = labels[b];
        let ghost l0 = labels@;
        let ghost t1 = self.tiles@;
        let mut k: usize = 0;
        while k < labels.len()
            invariant
                k <= labels@.len(),
                labels@.len() == rooms@.len(),
                l0.len() == rooms@.len(),
                la == l0[a as int],
                lb == l0[b as int],
                forall|j: int|
                    0 <= j < rooms@.len() ==> #[trigger] labels@[j] == if j < k && l0[j] == lb {
                        la
                    } else {
                        l0[j]
                    },
            decreases labels@.len() - k,
        {
            if labels[k] == lb {
                labels.set(k, la);
            }
            k = k + 1;
        }
        proof {
            lemma_merge_labels(t1, rooms@, l0, labels@, a as int, b as int);
            assert(labels@ =~= relabel(l0, a as int, b as int));
        }
        Ok(())
    }

    /// Joins the rooms at the ends of an edge, when both ends are room
    /// centers.
    fn join_edge(
        &mut self,
        rooms: &Vec<Room>,
        labels: &mut Vec<usize>,
        a: Coord,
        b: Coord,
        awkward_tiles: &Vec<bool>,
    ) -> (r: Result<(), CarveError>)
        requires
            old(self).wf(),
            awkward_tiles@.len() == CHUNK_AREA,
            forall|k: int| 0 <= k < rooms@.len() ==> room_ok(#[trigger] rooms@[k]),
            old(labels)@.len() == rooms@.len(),
            labels_joined(old(self).tiles@, rooms@, old(labels)@),
            centers_passable(old(self).tiles@, rooms@),
        ensures
            r is Ok,
            final(self).wf(),
            final(self).coord == old(self).coord,
            final(self).spawners == old(self).spawners,
            final(self).chests == old(self).chests,
            final(self).decorations == old(self).decorations,
            only_dug(old(self).tiles@, final(self).tiles@),
            final(labels)@.len() == rooms@.len(),
            labels_joined(final(self).tiles@, rooms@, final(labels)@),
            reaches_rooms(old(self).tiles@, rooms@) ==> reaches_rooms(final(self).tiles@, rooms@),
            centers_passable(final(self).tiles@, rooms@),
            r is Ok <==> edge_step(old(self).tiles@, old(labels)@, rooms@, awkward_tiles@, a, b) is Some,
            r is Ok ==> edge_step(old(self).tiles@, old(labels)@, rooms@, awkward_tiles@, a, b) == Some(
                (final(self).tiles@, final(labels)@),
            ),
    {
        let ghost t0 = self.tiles@;
        match (room_index(rooms, a), room_index(rooms, b)) {
            (Some(ia), Some(ib)) => self.join_rooms(rooms, labels, ia, ib, awkward_tiles),
            _ => {
                proof {
                    assert(only_dug(t0, t0));
                }
                Ok(())
            },
        }
    }

    /// Joins the rooms along each edge of the spanning tree.
    #[verifier::spinoff_prover]
    fn join_tree(
        &mut self,
        rooms: &Vec<Room>,
        labels: &mut Vec<usize>,
        tree: &Vec<(Coord, Coord)>,
        awkward_tiles: &Vec<bool>,
    ) -> (r: Result<(), CarveError>)
        requires
            old(self).wf(),
            awkward_tiles@.len() == CHUNK_AREA,
            forall|k: int| 0 <= k < rooms@.len() ==> room_ok(#[trigger] rooms@[k]),
            old(labels)@.len() == rooms@.len(),
            labels_joined(old(self).tiles@, rooms@, old(labels)@),
            centers_passable(old(self).tiles@, rooms@),
        ensures
            r is Ok,
            final(self).wf(),
            final(self).coord == old(self).coord,
            final(self).spawners == old(self).spawners,
            final(self).chests == old(self).chests,
            final(self).decorations == old(self).decorations,
            only_dug(old(self).tiles@, final(self).tiles@),
            final(labels)@.len() == rooms@.len(),
            labels_joined(final(self).tiles@, rooms@, final(labels)@),
            reaches_rooms(old(self).tiles@, rooms@) ==> reaches_rooms(final(self).tiles@, rooms@),
            centers_passable(final(self).tiles@, rooms@),
            r is Ok <==> tree_fold(old(self).tiles@, old(labels)@, rooms@, awkward_tiles@, tree@, tree@.len() as int) is Some,
            r is Ok ==> tree_fold(old(self).tiles@, old(labels)@, rooms@, awkward_tiles@, tree@, tree@.len() as int)
                == Some((final(self).tiles@, final(labels)@)),
    {
        let mut e: usize = 0;
        proof {
            assert(only_dug(self.tiles@, self.tiles@));
        }
        while e < tree.len()
            invariant
                self.wf(),
                self.coord == old(self).coord,
                self.spawners == old(self).spawners,
                self.chests == old(self).chests,
                self.decorations == old(self).decorations,
                only_dug(old(self).tiles@, self.tiles@),
                awkward_tiles@.len() == CHUNK_AREA,
                forall|j: int| 0 <= j < rooms@.len() ==> room_ok(#[trigger] rooms@[j]),
                labels@.len() == rooms@.len(),
                labels_joined(self.tiles@, rooms@, labels@),
                reaches_rooms(old(self).tiles@, rooms@) ==> reaches_rooms(self.tiles@, rooms@),
                centers_passable(self.tiles@, rooms@),
                e <= tree@.len(),
                tree_fold(old(self).tiles@, old(labels)@, rooms@, awkward_tiles@, tree@, e as int) == Some(
                    (self.tiles@, labels@),
                ),
            decreases tree@.len() - e,
        {
            let (a, b) = tree[e];
            let ghost t1 = self.tiles@;
            let res = self.join_edge(rooms, labels, a, b, awkward_tiles);
            proof {
                lemma_dug_trans(old(self).tiles@, t1, self.tiles@);
            }
            if res.is_err() {
                proof {
                    lemma_tree_none(old(self).tiles@, old(labels)@, rooms@, awkward_tiles@, tree@, e + 1, tree@.len() as int);
                }
                return Err(CarveError::NoPath);
            }
            e = e + 1;
        }
        Ok(())
    }

    /// Joins the rooms along each triangulation edge with the extra edge
    /// chance.
    fn join_extra(
        &mut self,
        random: &mut Random,
        rooms: &Vec<Room>,
        labels: &mut Vec<usize>,
        edges: &Vec<(Coord, Coord, u64)>,
        awkward_tiles: &Vec<bool>,
    ) -> (r: Result<(), CarveError>)
        requires
            old(self).wf(),
            awkward_tiles@.len() == CHUNK_AREA,
            forall|k: int| 0 <= k < rooms@.len() ==> room_ok(#[trigger] rooms@[k]),
            old(labels)@.len() == rooms@.len(),
            labels_joined(old(self).tiles@, rooms@, old(labels)@),
            centers_passable(old(self).tiles@, rooms@),
        ensures
            r is Ok,
            final(self).wf(),
            final(self).coord == old(self).coord,
            final(self).spawners == old(self).spawners,
            final(self).chests == old(self).chests,
            final(self).decorations == old(self).decorations,
            only_dug(old(self).tiles@, final(self).tiles@),
            final(labels)@.len() == rooms@.len(),
            labels_joined(final(self).tiles@, rooms@, final(labels)@),
            reaches_rooms(old(self).tiles@, rooms@) ==> reaches_rooms(final(self).tiles@, rooms@),
            centers_passable(final(self).tiles@, rooms@),
            r is Ok <==> extra_fold(old(self).tiles@, old(labels)@, old(random).state, rooms@, awkward_tiles@, edges@, edges@.len() as int) is Some,
            r is Ok ==> extra_fold(old(self).tiles@, old(labels)@, old(random).state, rooms@, awkward_tiles@, edges@, edges@.len() as int)
                == Some((final(self).tiles@, final(labels)@, final(random).state)),
    {
        let mut e: usize = 0;
        proof {
            assert(only_dug(self.tiles@, self.tiles@));
        }
        while e < edges.len()
            invariant
                self.wf(),
                self.coord == old(self).coord,
                self.spawners == old(self).spawners,
                self.chests == old(self).chests,
                self.decorations == old(self).decorations,
                only_dug(old(self).tiles@, self.tiles@),
                awkward_tiles@.len() == CHUNK_AREA,
                forall|j: int| 0 <= j < rooms@.len() ==> room_ok(#[trigger] rooms@[j]),
                labels@.len() == rooms@.len(),
                labels_joined(self.tiles@, rooms@, labels@),
                reaches_rooms(old(self).tiles@, rooms@) ==> reaches_rooms(self.tiles@, rooms@),
                centers_passable(self.tiles@, rooms@),
                e <= edges@.len(),
                extra_fold(old(self).tiles@, old(labels)@, old(random).state, rooms@, awkward_tiles@, edges@, e as int)
                    == Some((self.tiles@, labels@, random.state)),
            decreases edges@.len() - e,
        {
            let (a, b, _) = edges[e];
            if random.next_chance(EXTRA_EDGE_NUM, EXTRA_EDGE_DEN) {
                let ghost t1 = self.tiles@;
                let res = self.join_edge(rooms, labels, a, b, awkward_tiles);
                proof {
                    lemma_dug_trans(old(self).tiles@, t1, self.tiles@);
                }
                if res.is_err() {
                    proof {
                        lemma_extra_none(old(self).tiles@, old(labels)@, old(random).state, rooms@, awkward_tiles@, edges@, e + 1, edges@.len() as int);
                    }
                    return Err(CarveError::NoPath);
                }
            }
            e = e + 1;
        }
        Ok(())
    }

    /// Joins each room still apart from the first one to it.
    fn join_stragglers(&mut self, rooms: &Vec<Room>, labels: &mut Vec<usize>, awkward_tiles: &Vec<bool>) -> (r:
        Result<(), CarveError>)
        requires
            old(self).wf(),
            awkward_tiles@.len() == CHUNK_AREA,
            forall|k: int| 0 <= k < rooms@.len() ==> room_ok(#[trigger] rooms@[k]),
            old(labels)@.len() == rooms@.len(),
            labels_joined(old(self).tiles@, rooms@, old(labels)@),
            centers_passable(old(self).tiles@, rooms@),
        ensures
            r is Ok,
            final(self).wf(),
            final(self).coord == old(self).coord,
            final(self).spawners == old(self).spawners,
            final(self).chests == old(self).chests,
            final(self).decorations == old(self).decorations,
            only_dug(old(self).tiles@, final(self).tiles@),
            final(labels)@.len() == rooms@.len(),
            labels_joined(final(self).tiles@, rooms@, final(labels)@),
            reaches_rooms(old(self).tiles@, rooms@) ==> reaches_rooms(final(self).tiles@, rooms@),
            centers_passable(final(self).tiles@, rooms@),
            r is Ok <==> rejoin_fold(old(self).tiles@, old(labels)@, rooms@, awkward_tiles@, rooms@.len() as int) is Some,
            r is Ok ==> rejoin_fold(old(self).tiles@, old(labels)@, rooms@, awkward_tiles@, rooms@.len() as int)
                == Some((final(self).tiles@, final(labels)@)),
            r is Ok ==> forall|j: int| 0 <= j < rooms@.len() ==> #[trigger] final(labels)@[j] == final(labels)@[0],
    {
        let n = rooms.len();
        let mut k: usize = 1;
        proof {
            assert(only_dug(self.tiles@, self.tiles@));
        }
        while k < n
            invariant
                self.wf(),
                self.coord == old(self).coord,
                self.spawners == old(self).spawners,
                self.chests == old(self).chests,
                self.decorations == old(self).decorations,
                only_dug(old(self).tiles@, self.tiles@),
                awkward_tiles@.len() == CHUNK_AREA,
                forall|j: int| 0 <= j < rooms@.len() ==> room_ok(#[trigger] rooms@[j]),
                labels@.len() == rooms@.len(),
                labels_joined(self.tiles@, rooms@, labels@),
                reaches_rooms(old(self).tiles@, rooms@) ==> reaches_rooms(self.tiles@, rooms@),
                centers_passable(self.tiles@, rooms@),
                n == rooms@.len(),
                1 <= k,
                n > 0 ==> k <= n,
                n == 0 ==> k == 1,
                forall|j: int| 0 <= j < k && j < n ==> #[trigger] labels@[j] == labels@[0],
                rejoin_fold(old(self).tiles@, old(labels)@, rooms@, awkward_tiles@, k as int) == Some(
                    (self.tiles@, labels@),
                ),
            decreases n - k,
        {
            if labels[k] != labels[0] {
                let ghost t1 = self.tiles@;
                let ghost l0 = labels@;
                let res = self.join_rooms(rooms, labels, 0, k, awkward_tiles);
                proof {
                    lemma_dug_trans(old(self).tiles@, t1, self.tiles@);
                }
                if res.is_err() {
                    proof {
                        lemma_rejoin_none(old(self).tiles@, old(labels)@, rooms@, awkward_tiles@, k + 1, n as int);
                    }
                    return Err(CarveError::NoPath);
                }
                proof {
                    assert(labels@[0] == l0[0]);
                    assert forall|j: int| 0 <= j < k + 1 && j < n implies #[trigger] labels@[j] == labels@[0] by {
                        if j < k {
                            assert(l0[j] == l0[0]);
                        }
                    }
                }
            }
            k = k + 1;
        }
        proof {
            if n == 0 {
                assert(rejoin_fold(old(self).tiles@, old(labels)@, rooms@, awkward_tiles@, 0) == rejoin_fold(
                    old(self).tiles@,
                    old(labels)@,
                    rooms@,
                    awkward_tiles@,
                    1,
                ));
            }
        }
        Ok(())
    }

    /// Joins the rooms: a minimum spanning tree over the edges of the
    /// triangulation of their centers, each edge again with a fixed chance,
    /// and, should that leave a room apart, a tunnel from it to the first
    /// room.
    pub fn connect_all_rooms(&mut self, random: &mut Random, rooms: &Vec<Room>, awkward_tiles: &Vec<bool>) -> (r:
        Result<(), CarveError>)
        requires
            old(self).wf(),
            awkward_tiles@.len() == CHUNK_AREA,
            forall|k: int| 0 <= k < rooms@.len() ==> room_ok(#[trigger] rooms@[k]),
            centers_passable(old(self).tiles@, rooms@),
        ensures
            r is Ok,
            final(self).wf(),
            final(self).coord == old(self).coord,
            final(self).spawners == old(self).spawners,
            final(self).chests == old(self).chests,
            final(self).decorations == old(self).decorations,
            reaches_rooms(old(self).tiles@, rooms@) ==> reaches_rooms(final(self).tiles@, rooms@),
            only_dug(old(self).tiles@, final(self).tiles@),
            r is Ok ==> all_rooms_joined(final(self).tiles@, rooms@),
            r is Ok <==> connected(old(self).tiles@, old(random).state, rooms@, awkward_tiles@) is Some,
            r is Ok ==> connected(old(self).tiles@, old(random).state, rooms@, awkward_tiles@) == Some(
                (final(self).tiles@, final(random).state),
            ),
    {
        let ghost t0 = self.tiles@;
        let n = rooms.len();
        let mut centers: Vec<Coord> = Vec::new();
        let mut labels: Vec<usize> = Vec::new();
        let mut k: usize = 0;
        while k < n
            invariant
                n == rooms@.len(),
                k <= n,
                centers@.len() == k,
                labels@.len() == k,
                forall|j: int| 0 <= j < n ==> room_ok(#[trigger] rooms@[j]),
                forall|j: int| 0 <= j < k ==> #[trigger] centers@[j] == room_center(rooms@[j]),
                forall|j: int| 0 <= j < k ==> #[trigger] labels@[j] == j,
            decreases n - k,
        {
            centers.push(rooms[k].center());
            labels.push(k);
            k = k + 1;
        }
        proof {
            assert(centers@ =~= centers_of(rooms@));
            assert(labels@ =~= Seq::new(rooms@.len(), |k: int| k as usize));
            assert(only_dug(t0, self.tiles@));
            assert forall|i: int, j: int|
                0 <= i < n && 0 <= j < n && #[trigger] labels@[i] == #[trigger] labels@[j] implies joined(
                    self.tiles@,
                    room_center(rooms@[i]),
                    room_center(rooms@[j]),
                ) by {
                assert(i == j);
                assert(passable(self.tiles@, room_center(rooms@[i])));
                lemma_joined_refl(self.tiles@, room_center(rooms@[i]));
            }
            assert forall|j: int| 0 <= j < n implies crate::triangulation::coord_small(#[trigger] centers@[j]) by {
                assert(room_ok(rooms@[j]));
            }
        }
        let triangles = crate::triangulation::triangulate(&centers);
        let edges = room_edges(rooms, &centers, &triangles);
        let tree = crate::outside::spanning_edges(&edges);
        let ghost t1 = self.tiles@;
        let res = self.join_tree(rooms, &mut labels, &tree, awkward_tiles);
        if res.is_err() {
            return Err(CarveError::NoPath);
        }
        let ghost t2 = self.tiles@;
        let res = self.join_extra(random, rooms, &mut labels, &edges, awkward_tiles);
        proof {
            lemma_dug_trans(t0, t2, self.tiles@);
        }
        if res.is_err() {
            return Err(CarveError::NoPath);
        }
        let ghost t3 = self.tiles@;
        let res = self.join_stragglers(rooms, &mut labels, awkward_tiles);
        proof {
            lemma_dug_trans(t0, t3, self.tiles@);
        }
        if res.is_err() {
            return Err(CarveError::NoPath);
        }
        proof {
            let tiles = self.tiles@;
            assert forall|i: int, j: int| 0 <= i < n && 0 <= j < n implies joined(
                tiles,
                room_center(#[trigger] rooms@[i]),
                room_center(#[trigger] rooms@[j]),
            ) by {
                assert(labels@[i] == labels@[0]);
                assert(labels@[j] == labels@[0]);
            }
        }
        Ok(())
    }
}

/// The three edges of each triangle, each weighted by its squared length.
fn room_edges(rooms: &Vec<Room>, centers: &Vec<Coord>, triangles: &Vec<(Coord, Coord, Coord)>) -> (r: Vec<
    (Coord, Coord, u64),
>)
    requires
        forall|j: int| 0 <= j < rooms@.len() ==> room_ok(#[trigger] rooms@[j]),
        forall|j: int| 0 <= j < rooms@.len() ==> #[trigger] centers@[j] == room_center(rooms@[j]),
        centers@.len() == rooms@.len(),
        forall|i: int|
            0 <= i < triangles@.len() ==> {
                &&& crate::triangulation::is_vertex(centers@, (#[trigger] triangles@[i]).0)
                &&& crate::triangulation::is_vertex(centers@, triangles@[i].1)
                &&& crate::triangulation::is_vertex(centers@, triangles@[i].2)
            },
    ensures
        r@ == triangle_edges(triangles@),
{
    let mut edges: Vec<(Coord, Coord, u64)> = Vec::new();
    let mut t: usize = 0;
    while t < triangles.len()
        invariant
            t <= triangles@.len(),
            edges@ == triangle_edges(triangles@.take(t as int)),
            forall|j: int| 0 <= j < rooms@.len() ==> room_ok(#[trigger] rooms@[j]),
            forall|j: int| 0 <= j < rooms@.len() ==> #[trigger] centers@[j] == room_center(rooms@[j]),
            centers@.len() == rooms@.len(),
            forall|i: int|
                0 <= i < triangles@.len() ==> {
                    &&& crate::triangulation::is_vertex(centers@, (#[trigger] triangles@[i]).0)
                    &&& crate::triangulation::is_vertex(centers@, triangles@[i].1)
                    &&& crate::triangulation::is_vertex(centers@, triangles@[i].2)
                },
        decreases triangles@.len() - t,
    {
        let (a, b, c) = triangles[t];
        proof {
            assert(triangles@.take(t + 1).drop_last() =~= triangles@.take(t as int));
            assert(crate::triangulation::is_vertex(centers@, triangles@[t as int].0));
        }
        edges.push((a, b, center_distance(rooms, centers, a, b)));
        edges.push((b, c, center_distance(rooms, centers, b, c)));
        edges.push((c, a, center_distance(rooms, centers, c, a)));
        t = t + 1;
    }
    proof {
        assert(triangles@.take(t as int) =~= triangles@);
    }
    edges
}

proof fn lemma_tree_none(
    tiles: Seq<Tile>,
    labels: Seq<usize>,
    rooms: Seq<Room>,
    awkward_tiles: Seq<bool>,
    tree: Seq<(Coord, Coord)>,
    n: int,
    m: int,
)
    requires
        n <= m,
        tree_fold(tiles, labels, rooms, awkward_tiles, tree, n) is None,
    ensures
        tree_fold(tiles, labels, rooms, awkward_tiles, tree, m) is None,
    decreases m - n,
{
    if n < m {
        lemma_tree_none(tiles, labels, rooms, awkward_tiles, tree, n, m - 1);
    }
}

proof fn lemma_extra_none(
    tiles: Seq<Tile>,
    labels: Seq<usize>,
    s: u32,
    rooms: Seq<Room>,
    awkward_tiles: Seq<bool>,
    edges: Seq<(Coord, Coord, u64)>,
    n: int,
    m: int,
)
    requires
        n <= m,
        extra_fold(tiles, labels, s, rooms, awkward_tiles, edges, n) is None,
    ensures
        extra_fold(tiles, labels, s, rooms, awkward_tiles, edges, m) is None,
    decreases m - n,
{
    if n < m {
        lemma_extra_none(tiles, labels, s, rooms, awkward_tiles, edges, n, m - 1);
    }
}

proof fn lemma_rejoin_none(
    tiles: Seq<Tile>,
    labels: Seq<usize>,
    rooms: Seq<Room>,
    awkward_tiles: Seq<bool>,
    n: int,
    m: int,
)
    requires
        n <= m,
        rejoin_fold(tiles, labels, rooms, awkward_tiles, n) is None,
    ensures
        rejoin_fold(tiles, labels, rooms, awkward_tiles, m) is None,
    decreases m - n,
{
    if n < m {
        lemma_rejoin_none(tiles, labels, rooms, awkward_tiles, n, m - 1);
    }
}

/// Squared distance between two room centers, the weight of the edge that
/// joins them.
fn center_distance(rooms: &Vec<Room>, centers: &Vec<Coord>, a: Coord, b: Coord) -> (r: u64)
    requires
        forall|j: int| 0 <= j < rooms@.len() ==> room_ok(#[trigger] rooms@[j]),
        forall|j: int| 0 <= j < rooms@.len() ==> #[trigger] centers@[j] == room_center(rooms@[j]),
        centers@.len() == rooms@.len(),
        crate::triangulation::is_vertex(centers@, a),
        crate::triangulation::is_vertex(centers@, b),
    ensures
        r == (a.x - b.x) * (a.x - b.x) + (a.y - b.y) * (a.y - b.y),
        r == squared_length(a, b),
{
    let ghost ka = choose|k: int| 0 <= k < centers@.len() && #[trigger] centers@[k] == a;
    let ghost kb = choose|k: int| 0 <= k < centers@.len() && #[trigger] centers@[k] == b;
    proof {
        assert(room_ok(rooms@[ka]));
        assert(room_ok(rooms@[kb]));
    }
    let dx = (a.x - b.x) as i64;
    let dy = (a.y - b.y) as i64;
    proof {
        assert(0 <= dx * dx <= 10000) by (nonlinear_arith)
            requires
                -100 <= dx <= 100,
        ;
        assert(0 <= dy * dy <= 10000) by (nonlinear_arith)
            requires
                -100 <= dy <= 100,
        ;
    }
    (dx * dx + dy * dy) as u64
}

/// Stitching from the first `n` of `entries` in turn.
pub open spec fn stitch_all(tiles: Seq<Tile>, awkward_tiles: Seq<bool>, entries: Seq<Coord>, n: int) -> Option<
    Seq<Tile>,
>
    decreases n,
{
    if n <= 0 {
        Some(tiles)
    } else {
        match stitch_all(tiles, awkward_tiles, entries, n - 1) {
            Some(t) => stitched(t, awkward_tiles, entries[n - 1]),
            None => None,
        }
    }
}

/// The entry points of chunk `c`.
pub open spec fn entry_list(c: Coord) -> Seq<Coord> {
    Seq::new(4 * ENTRIES_PER_SIDE as nat, |i: int| entry_point(c, i))
}

/// What generating chunk `c` of the world seeded `seed` makes of the grid
/// `tiles` and the features `f`: the grid and features after, or `None`
/// when a tunnel is not found.
pub open spec fn generated(c: Coord, seed: u32, tiles: Seq<Tile>, f: (Seq<Point>, Seq<Chest>, Seq<Point>)) -> Option<
    (Seq<Tile>, (Seq<Point>, Seq<Chest>, Seq<Point>)),
> {
    let (s1, rooms) = rooms_spec(c, chunk_seed(c, seed));
    let awkward_tiles = awkward_grid(rooms);
    match connected(stamp_all(tiles, rooms), s1, rooms, awkward_tiles) {
        Some((t2, s2)) => match stitch_all(t2, awkward_tiles, entry_list(c), 4 * ENTRIES_PER_SIDE as int) {
            Some(t3) => {
                let (t4, s3) = barred(t3, s2, rooms);
                let g = featured_from(c, f, s3, rooms);
                Some((t4, (g.0, g.1, g.2)))
            },
            None => None,
        },
        None => None,
    }
}

/// The grid of solid wall.
pub open spec fn walls() -> Seq<Tile> {
    Seq::new(CHUNK_AREA as nat, |i: int| Tile::Wall)
}

/// Chunk `c` of the world seeded `seed`: its grid and features, or `None`
/// when a tunnel is not found.
#[verifier::opaque]
pub open spec fn chunk_spec(c: Coord, seed: u32) -> Option<(Seq<Tile>, (Seq<Point>, Seq<Chest>, Seq<Point>))> {
    generated(c, seed, walls(), (seq![], seq![], seq![]))
}

/// Generation is deterministic: two chunks generated for one seed and one
/// chunk coordinate hold the same tiles and the same features, each being
/// what `chunk_spec` gives for that seed and coordinate.
pub proof fn lemma_generation_deterministic(c: Coord, seed: u32, a: Chunk, b: Chunk)
    requires
        chunk_spec(c, seed) == Some((a.tiles@, features(a))),
        chunk_spec(c, seed) == Some((b.tiles@, features(b))),
    ensures
        a.tiles@ == b.tiles@,
        a.spawners@ == b.spawners@,
        a.chests@ == b.chests@,
        a.decorations@ == b.decorations@,
{
}

proof fn lemma_stitch_none(tiles: Seq<Tile>, awkward_tiles: Seq<bool>, entries: Seq<Coord>, n: int, m: int)
    requires
        n <= m,
        stitch_all(tiles, awkward_tiles, entries, n) is None,
    ensures
        stitch_all(tiles, awkward_tiles, entries, m) is None,
    decreases m - n,
{
    if n < m {
        lemma_stitch_none(tiles, awkward_tiles, entries, n, m - 1);
    }
}

/// The rooms placed in chunk `c` of the world seeded `seed`.
pub open spec fn placed_rooms(c: Coord, seed: u32) -> Seq<Room> {
    rooms_spec(c, chunk_seed(c, seed)).1
}

/// Seed of the stream that generates chunk `c` of the world seeded `seed`.
pub open spec fn chunk_seed(c: Coord, seed: u32) -> u32 {
    crate::outside::coord_hash(c.x, c.y).wrapping_add(seed)
}

impl Chunk {
    /// Fills each room with floor.
    pub fn stamp_rooms(&mut self, rooms: &Vec<Room>)
        requires
            old(self).wf(),
            forall|k: int| 0 <= k < rooms@.len() ==> room_ok(#[trigger] rooms@[k]),
        ensures
            final(self).wf(),
            final(self).coord == old(self).coord,
            features(*final(self)) == features(*old(self)),
            final(self).tiles@ == stamp_all(old(self).tiles@, rooms@),
            rooms_open(final(self).tiles@, rooms@),
            rooms@.len() > 0 ==> has_floor(final(self).tiles@),
            all_walls(old(self).tiles@) ==> reaches_rooms(final(self).tiles@, rooms@),
    {
        let mut k: usize = 0;
        while k < rooms.len()
            invariant
                self.wf(),
                self.coord == old(self).coord,
                k <= rooms@.len(),
                forall|j: int| 0 <= j < rooms@.len() ==> room_ok(#[trigger] rooms@[j]),
                rooms_open(self.tiles@, rooms@.take(k as int)),
                self.tiles@ == stamp_all(old(self).tiles@, rooms@.take(k as int)),
                features(*self) == features(*old(self)),
                all_walls(old(self).tiles@) ==> forall|c: Coord|
                    #[trigger] passable(self.tiles@, c) ==> exists|j: int| 0 <= j < k && in_room(rooms@[j], c),
            decreases rooms@.len() - k,
        {
            let ghost before = self.tiles@;
            let room = rooms[k];
            self.create_room(room);
            proof {
                if all_walls(old(self).tiles@) {
                    assert forall|c: Coord| #[trigger] passable(self.tiles@, c) implies exists|j: int|
                        0 <= j < k + 1 && in_room(rooms@[j], c) by {
                        lemma_index_coord(c);
                        if passable(before, c) {
                            let j = choose|j: int| 0 <= j < k && in_room(rooms@[j], c);
                        } else {
                            assert(in_room(rooms@[k as int], index_coord(tile_index(c))));
                        }
                    }
                }
                assert(rooms@.take(k + 1).drop_last() =~= rooms@.take(k as int));
                let done = rooms@.take(k + 1);
                assert forall|j: int, c: Coord| 0 <= j < done.len() && #[trigger] in_room(done[j], c) implies passable(
                    self.tiles@,
                    c,
                ) by {
                    assert(room_ok(rooms@[j]));
                    lemma_index_coord(c);
                    if j < k {
                        assert(rooms@.take(k as int)[j] == done[j]);
                        assert(passable(before, c));
                    } else {
                        assert(in_room(room, index_coord(tile_index(c))));
                    }
                }
            }
            k = k + 1;
        }
        proof {
            assert(rooms@.take(k as int) =~= rooms@);
            if all_walls(old(self).tiles@) {
                lemma_reach_from_rooms(self.tiles@, rooms@);
            }
            if rooms@.len() > 0 {
                let last = rooms@.last();
                let c = room_center(last);
                assert(room_ok(last));
                lemma_index_coord(c);
                assert(in_room(last, index_coord(tile_index(c))));
                assert(stamp_all(old(self).tiles@, rooms@) == stamped(
                    stamp_all(old(self).tiles@, rooms@.drop_last()),
                    last,
                ));
                assert(tile_at(self.tiles@, c) == Tile::Floor);
            }
        }
    }

    /// Stitches each entry point of the chunk's border to the nearest floor.
    pub fn stitch_entries(&mut self, rooms: &Vec<Room>, awkward_tiles: &Vec<bool>) -> (r: Result<(), CarveError>)
        requires
            old(self).wf(),
            awkward_tiles@.len() == CHUNK_AREA,
            all_rooms_joined(old(self).tiles@, rooms@),
            rooms_open(old(self).tiles@, rooms@),
            has_floor(old(self).tiles@),
        ensures
            r is Ok,
            final(self).wf(),
            final(self).coord == old(self).coord,
            features(*final(self)) == features(*old(self)),
            all_rooms_joined(final(self).tiles@, rooms@),
            rooms_open(final(self).tiles@, rooms@),
            r is Ok <==> stitch_all(old(self).tiles@, awkward_tiles@, entry_list(old(self).coord), 4 * ENTRIES_PER_SIDE as int) is Some,
            r is Ok ==> stitch_all(old(self).tiles@, awkward_tiles@, entry_list(old(self).coord), 4 * ENTRIES_PER_SIDE as int)
                == Some(final(self).tiles@),
            reaches_rooms(old(self).tiles@, rooms@) ==> reaches_rooms(final(self).tiles@, rooms@),
            forall|i: int|
                0 <= i < 4 * ENTRIES_PER_SIDE ==> passable(final(self).tiles@, #[trigger] entry_list(old(self).coord)[i]),
    {
        let entries = self.chunk_entries();
        proof {
            assert(entries@ =~= entry_list(self.coord));
        }
        let mut e: usize = 0;
        while e < entries.len()
            invariant
                self.wf(),
                self.coord == old(self).coord,
                awkward_tiles@.len() == CHUNK_AREA,
                all_rooms_joined(self.tiles@, rooms@),
                rooms_open(self.tiles@, rooms@),
                e <= entries@.len(),
                entries@ == entry_list(self.coord),
                stitch_all(old(self).tiles@, awkward_tiles@, entries@, e as int) == Some(self.tiles@),
                features(*self) == features(*old(self)),
                has_floor(self.tiles@),
                forall|j: int| 0 <= j < entries@.len() ==> in_chunk(#[trigger] entries@[j]),
                reaches_rooms(old(self).tiles@, rooms@) ==> reaches_rooms(self.tiles@, rooms@),
                forall|j: int| 0 <= j < e ==> passable(self.tiles@, #[trigger] entries@[j]),
            decreases entries@.len() - e,
        {
            let ghost before = self.tiles@;
            let res = self.create_chunk_entry(entries[e], awkward_tiles);
            proof {
                lemma_dug_keeps_floor(before, self.tiles@);
                if res.is_ok() {
                    let start = entries@[e as int];
                    let p = choose|p: Seq<Coord>|
                        #[trigger] cheapest_to_floor(before, awkward_tiles@, start, p) && self.tiles@ == filled(before, p);
                    if reaches_rooms(old(self).tiles@, rooms@) {
                        lemma_reach_after_entry(before, p, start, rooms@);
                    }
                    lemma_filled_walk_joined(before, p, start, 0);
                    lemma_walk_in_chunk(p, start, 0);
                    lemma_index_coord(start);
                    assert(on_path(p, index_coord(tile_index(start))));
                    assert(passable(self.tiles@, start));
                    assert forall|j: int| 0 <= j < e + 1 implies passable(self.tiles@, #[trigger] entries@[j]) by {
                        if j < e {
                            assert(passable(before, entries@[j]));
                        }
                    }
                }
                lemma_dug_keeps_passable(before, self.tiles@);
                lemma_all_joined_kept(before, self.tiles@, rooms@);
                lemma_rooms_open_kept(before, self.tiles@, rooms@);
            }
            if res.is_err() {
                proof {
                    lemma_stitch_none(old(self).tiles@, awkward_tiles@, entries@, e + 1, entries@.len() as int);
                }
                return Err(CarveError::NoPath);
            }
            e = e + 1;
        }
        Ok(())
    }

    /// Generates the chunk into its grid: rooms, the tunnels that join
    /// them, the entries on its border, barriers and features. Returns the
    /// rooms placed. A tunnel that cannot be carved aborts generation with
    /// the reason.
    #[verifier::spinoff_prover]
    pub fn generate(&mut self, seed: u32) -> (r: Result<Vec<Room>, CarveError>)
        requires
            old(self).wf(),
        ensures
            r is Ok,
            final(self).wf(),
            final(self).coord == old(self).coord,
            r matches Ok(rooms) ==> {
                &&& rooms_ok(old(self).coord, rooms@)
                &&& rooms@ == placed_rooms(old(self).coord, seed)
                &&& all_rooms_joined(final(self).tiles@, rooms@)
                &&& rooms_open(final(self).tiles@, rooms@)
            },
            r matches Ok(rooms) ==> all_walls(old(self).tiles@) ==> {
                &&& reaches_rooms(final(self).tiles@, rooms@)
                &&& entries_reach_rooms(final(self).tiles@, rooms@, old(self).coord)
            },
            r is Ok <==> generated(old(self).coord, seed, old(self).tiles@, features(*old(self))) is Some,
            r is Ok ==> generated(old(self).coord, seed, old(self).tiles@, features(*old(self))) == Some(
                (final(self).tiles@, features(*final(self))),
            ),
    {
        let mut random = Random::new(crate::outside::hash_coord(self.coord).wrapping_add(seed));
        let rooms = self.generate_rooms(&mut random);
        self.stamp_rooms(&rooms);
        proof {
            lemma_centers_open(self.tiles@, rooms@);
        }
        let awkward_tiles = Self::compute_awkward_points(&rooms);
        let ghost t0 = self.tiles@;
        let res = self.connect_all_rooms(&mut random, &rooms, &awkward_tiles);
        proof {
            lemma_dug_keeps_floor(t0, self.tiles@);
            lemma_dug_keeps_passable(t0, self.tiles@);
            lemma_rooms_open_kept(t0, self.tiles@, rooms@);
        }
        if res.is_err() {
            return Err(CarveError::NoPath);
        }
        let res = self.stitch_entries(&rooms, &awkward_tiles);
        if res.is_err() {
            return Err(CarveError::NoPath);
        }
        let ghost before = self.tiles@;
        self.add_barriers(&rooms, &mut random);
        proof {
            lemma_barred_keeps_passable(before, self.tiles@);
            lemma_all_joined_kept(before, self.tiles@, rooms@);
            lemma_rooms_open_kept(before, self.tiles@, rooms@);
            if all_walls(old(self).tiles@) {
                lemma_entries_reach(before, self.tiles@, rooms@, self.coord);
            }
        }
        self.add_features(&mut random, &rooms);
        Ok(rooms)
    }

    /// The chunk at `coord` of the world seeded `seed`, generated.
    pub fn new(coord: Coord, seed: u32) -> (r: Result<Self, CarveError>)
        requires
            crate::chunk::chunk_coord_ok(coord),
        ensures
            r matches Ok(chunk) ==> {
                &&& chunk.wf()
                &&& chunk.coord == coord
                &&& all_rooms_joined(chunk.tiles@, placed_rooms(coord, seed))
                &&& rooms_open(chunk.tiles@, placed_rooms(coord, seed))
                &&& chunk_spec(coord, seed) == Some((chunk.tiles@, features(chunk)))
                &&& reaches_rooms(chunk.tiles@, placed_rooms(coord, seed))
                &&& entries_reach_rooms(chunk.tiles@, placed_rooms(coord, seed), coord)
            },
            r is Ok,
            chunk_spec(coord, seed) is Some,
    {
        let mut chunk = Chunk::empty(coord);
        proof {
            reveal(chunk_spec);
            assert(chunk.tiles@ =~= walls());
            assert forall|c: Coord| in_chunk(c) implies #[trigger] tile_at(chunk.tiles@, c) == Tile::Wall by {
                lemma_index_coord(c);
            }
            assert(features(chunk) =~= (seq![], seq![], seq![]));
        }
        match chunk.generate(seed) {
            Ok(_) => Ok(chunk),
            Err(e) => Err(e),
        }
    }
}

/// Every tile of every room is passable.
pub open spec fn rooms_open(tiles: Seq<Tile>, rooms: Seq<Room>) -> bool {
    forall|k: int, c: Coord| 0 <= k < rooms.len() && #[trigger] in_room(rooms[k], c) ==> passable(tiles, c)
}

proof fn lemma_rooms_open_kept(t0: Seq<Tile>, t1: Seq<Tile>, rooms: Seq<Room>)
    requires
        rooms_open(t0, rooms),
        keeps_passable(t0, t1),
    ensures
        rooms_open(t1, rooms),
{
    assert forall|k: int, c: Coord| 0 <= k < rooms.len() && #[trigger] in_room(rooms[k], c) implies passable(t1, c) by {
        assert(passable(t0, c));
    }
}

proof fn lemma_centers_open(tiles: Seq<Tile>, rooms: Seq<Room>)
    requires
        rooms_open(tiles, rooms),
        forall|k: int| 0 <= k < rooms.len() ==> room_ok(#[trigger] rooms[k]),
    ensures
        centers_passable(tiles, rooms),
{
    assert forall|k: int| 0 <= k < rooms.len() implies passable(tiles, room_center(#[trigger] rooms[k])) by {
        assert(room_ok(rooms[k]));
        assert(in_room(rooms[k], room_center(rooms[k])));
    }
}

/// An open tile that reaches some room reaches every room, once all rooms
/// are joined.
proof fn lemma_joined_all_rooms(tiles: Seq<Tile>, rooms: Seq<Room>, e: Coord)
    requires
        reaches_rooms(tiles, rooms),
        all_rooms_joined(tiles, rooms),
        passable(tiles, e),
    ensures
        forall|k: int| 0 <= k < rooms.len() ==> #[trigger] joined(tiles, e, room_center(rooms[k])),
{
    reveal(reaches_rooms);
    let k0 = choose|k: int| 0 <= k < rooms.len() && joined(tiles, e, room_center(rooms[k]));
    assert forall|k: int| 0 <= k < rooms.len() implies #[trigger] joined(tiles, e, room_center(rooms[k])) by {
        assert(joined(tiles, room_center(rooms[k0]), room_center(rooms[k])));
        lemma_joined_trans(tiles, e, room_center(rooms[k0]), room_center(rooms[k]));
    }
}

/// Every entry point of chunk `c` is open and joined to every room.
#[verifier::opaque]
pub open spec fn entries_reach_rooms(tiles: Seq<Tile>, rooms: Seq<Room>, c: Coord) -> bool {
    forall|i: int|
        0 <= i < 4 * ENTRIES_PER_SIDE ==> passable(tiles, #[trigger] entry_point(c, i)) && forall|k: int|
            0 <= k < rooms.len() ==> #[trigger] joined(tiles, entry_point(c, i), room_center(rooms[k]))
}

/// After barring, open tiles still reach rooms and every entry point that
/// was open is open and joined to every room.
proof fn lemma_entries_reach(t0: Seq<Tile>, t1: Seq<Tile>, rooms: Seq<Room>, c: Coord)
    requires
        reaches_rooms(t0, rooms),
        crate::barriers::only_barred(t0, t1),
        all_rooms_joined(t1, rooms),
        forall|i: int| 0 <= i < 4 * ENTRIES_PER_SIDE ==> passable(t0, #[trigger] entry_list(c)[i]),
    ensures
        reaches_rooms(t1, rooms),
        entries_reach_rooms(t1, rooms, c),
{
    reveal(entries_reach_rooms);
    lemma_reach_barred(t0, t1, rooms);
    lemma_barred_keeps_passable(t0, t1);
    assert forall|i: int| 0 <= i < 4 * ENTRIES_PER_SIDE implies passable(t1, #[trigger] entry_point(c, i)) && forall|k: int|
        0 <= k < rooms.len() ==> #[trigger] joined(t1, entry_point(c, i), room_center(rooms[k])) by {
        assert(entry_list(c)[i] == entry_point(c, i));
        assert(passable(t0, entry_list(c)[i]));
        lemma_joined_all_rooms(t1, rooms, entry_point(c, i));
    }
}

/// Barring opens nothing, so open tiles keep reaching rooms.
proof fn lemma_reach_barred(t0: Seq<Tile>, t1: Seq<Tile>, rooms: Seq<Room>)
    requires
        reaches_rooms(t0, rooms),
        crate::barriers::only_barred(t0, t1),
    ensures
        reaches_rooms(t1, rooms),
{
    lemma_barred_keeps_passable(t0, t1);
    assert forall|c: Coord| passable(t1, c) && !passable(t0, c) implies exists|k: int|
        0 <= k < rooms.len() && #[trigger] joined(t1, c, room_center(rooms[k])) by {
        lemma_index_coord(c);
        assert(t1[tile_index(c)] == t0[tile_index(c)] || t0[tile_index(c)] == Tile::Floor);
    }
    lemma_reach_kept(t0, t1, rooms);
}

proof fn lemma_all_joined_kept(t0: Seq<Tile>, t1: Seq<Tile>, rooms: Seq<Room>)
    requires
        all_rooms_joined(t0, rooms),
        keeps_passable(t0, t1),
    ensures
        all_rooms_joined(t1, rooms),
{
    assert forall|i: int, j: int| 0 <= i < rooms.len() && 0 <= j < rooms.len() implies joined(
        t1,
        room_center(#[trigger] rooms[i]),
        room_center(#[trigger] rooms[j]),
    ) by {
        lemma_joined_kept(t0, t1, room_center(rooms[i]), room_center(rooms[j]));
    }
}

} // verus!
