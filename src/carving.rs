//! Carving tunnels through wall: the cost model of the searches and the
//! tunnels between rooms and from the chunk's border.
use vstd::prelude::*;
use crate::chunk::{
    in_chunk, index_coord, is_walk, joined, keeps_passable, lemma_coord_index,
    lemma_index_coord, passable, tile_at, tile_index, Chunk, CHUNK_AREA, CHUNK_SIZE,
    CHUNK_SIZE_I32,
};
use crate::coord::{coord, orthogonal_neighbours, Coord};
use crate::map::Tile;
use crate::rooms::{room_ok, Room};
use crate::outside::{entry_path, tunnel_path};

verus! {

/// Cost of digging through one wall tile while carving a tunnel.
pub const PATHFINDING_TUNNEL_COST: u32 = 10;

/// Whether `c` is one of the twelve tiles that flank the corners of `r`
/// from outside: tunnels that graze these cut awkwardly into the room.
pub open spec fn flanks_corner(r: Room, c: Coord) -> bool {
    let (x0, y0, x1, y1) = (r.x as int, r.y as int, r.x + r.width, r.y + r.height);
    ||| (c.x == x0 - 1 && c.y == y0 - 1) || (c.x == x0 && c.y == y0 - 1) || (c.x == x0 - 1 && c.y == y0)
    ||| (c.x == x1 && c.y == y0 - 1) || (c.x == x1 - 1 && c.y == y0 - 1) || (c.x == x1 && c.y == y0)
    ||| (c.x == x0 - 1 && c.y == y1) || (c.x == x0 && c.y == y1) || (c.x == x0 - 1 && c.y == y1 - 1)
    ||| (c.x == x1 && c.y == y1) || (c.x == x1 - 1 && c.y == y1) || (c.x == x1 && c.y == y1 - 1)
}

/// Whether `c` lies on the outermost ring of the chunk.
pub open spec fn on_border(c: Coord) -> bool {
    c.x == 0 || c.y == 0 || c.x == CHUNK_SIZE_I32 - 1 || c.y == CHUNK_SIZE_I32 - 1
}

/// Tiles that tunnels should avoid: the chunk's border and the tiles that
/// flank room corners.
pub open spec fn awkward(rooms: Seq<Room>, c: Coord) -> bool {
    on_border(c) || exists|k: int| 0 <= k < rooms.len() && flanks_corner(#[trigger] rooms[k], c)
}

/// The cells a tunnel search may step onto: every cell of the chunk.
pub open spec fn searchable(c: Coord) -> bool {
    0 <= c.x < CHUNK_SIZE_I32 && 0 <= c.y < CHUNK_SIZE_I32
}

/// Cost of stepping onto `c` while carving: 1 on anything but wall, the
/// tunnel cost on wall, ten times that on an awkward wall tile.
pub open spec fn step_cost(tiles: Seq<Tile>, awkward_tiles: Seq<bool>, c: Coord) -> u32 {
    if tile_at(tiles, c) != Tile::Wall {
        1
    } else if awkward_tiles[tile_index(c)] {
        100
    } else {
        PATHFINDING_TUNNEL_COST
    }
}

/// Whether `c` is a one-tile doorway: walls on both sides along one axis,
/// no wall on either side along the other.
pub open spec fn chokepoint(tiles: Seq<Tile>, c: Coord) -> bool {
    let top = tile_at(tiles, c.top_spec());
    let bottom = tile_at(tiles, c.bottom_spec());
    let left = tile_at(tiles, c.left_spec());
    let right = tile_at(tiles, c.right_spec());
    ||| (left == Tile::Wall && right == Tile::Wall && top != Tile::Wall && bottom != Tile::Wall)
    ||| (top == Tile::Wall && bottom == Tile::Wall && left != Tile::Wall && right != Tile::Wall)
}

/// Whether `c` lies inside room `r` (the filled tiles).
pub open spec fn in_room(r: Room, c: Coord) -> bool {
    r.x <= c.x < r.x + r.width && r.y <= c.y < r.y + r.height
}

/// A grid with the tiles of room `r` turned into floor.
pub open spec fn stamped(tiles: Seq<Tile>, r: Room) -> Seq<Tile> {
    Seq::new(tiles.len(), |i: int| if in_room(r, index_coord(i)) { Tile::Floor } else { tiles[i] })
}

/// A grid with the tiles of every room of `rooms` turned into floor.
pub open spec fn stamp_all(tiles: Seq<Tile>, rooms: Seq<Room>) -> Seq<Tile>
    decreases rooms.len(),
{
    if rooms.len() == 0 {
        tiles
    } else {
        stamped(stamp_all(tiles, rooms.drop_last()), rooms.last())
    }
}

/// For each tile of the grid, whether it is awkward for `rooms`.
pub open spec fn awkward_grid(rooms: Seq<Room>) -> Seq<bool> {
    Seq::new(CHUNK_AREA as nat, |i: int| awkward(rooms, index_coord(i)))
}

/// Whether `c` lies on `r` or on the ring of tiles around it.
pub open spec fn around_room(r: Room, c: Coord) -> bool {
    r.x - 1 <= c.x <= r.x + r.width && r.y - 1 <= c.y <= r.y + r.height
}

/// Whether `p` is a walk a tunnel search could take from `start`: one
/// orthogonal step at a time onto searchable cells.
pub open spec fn search_walk(p: Seq<Coord>, start: Coord) -> bool {
    &&& p.len() > 0
    &&& p[0] == start
    &&& forall|i: int| 1 <= i < p.len() ==> searchable(#[trigger] p[i])
    &&& forall|i: int| 0 <= i < p.len() - 1 ==> orthogonal_neighbours(#[trigger] p[i], p[i + 1])
}

/// The cost of a search walk: the step cost of each cell entered.
pub open spec fn walk_cost(tiles: Seq<Tile>, awkward_tiles: Seq<bool>, p: Seq<Coord>) -> int
    decreases p.len(),
{
    if p.len() <= 1 {
        0
    } else {
        walk_cost(tiles, awkward_tiles, p.drop_last()) + step_cost(tiles, awkward_tiles, p.last()) as int
    }
}

/// Whether `p` is a cheapest search walk from `start` to `end`.
pub open spec fn cheapest_walk(tiles: Seq<Tile>, awkward_tiles: Seq<bool>, start: Coord, end: Coord, p: Seq<Coord>) -> bool {
    &&& search_walk(p, start)
    &&& p.last() == end
    &&& forall|q: Seq<Coord>|
        #[trigger] search_walk(q, start) && q.last() == end ==> walk_cost(tiles, awkward_tiles, p) <= walk_cost(
            tiles,
            awkward_tiles,
            q,
        )
}

/// Whether `p` is a cheapest search walk from `start` to a floor tile.
pub open spec fn cheapest_to_floor(tiles: Seq<Tile>, awkward_tiles: Seq<bool>, start: Coord, p: Seq<Coord>) -> bool {
    &&& search_walk(p, start)
    &&& in_chunk(p.last()) && tile_at(tiles, p.last()) == Tile::Floor
    &&& forall|q: Seq<Coord>|
        #[trigger] search_walk(q, start) && in_chunk(q.last()) && tile_at(tiles, q.last()) == Tile::Floor
            ==> walk_cost(tiles, awkward_tiles, p) <= walk_cost(tiles, awkward_tiles, q)
}

/// Every cell of a search walk starting inside the chunk is inside it.
pub proof fn lemma_walk_in_chunk(p: Seq<Coord>, start: Coord, i: int)
    requires
        search_walk(p, start),
        in_chunk(start),
        0 <= i < p.len(),
    ensures
        in_chunk(p[i]),
{
    if i > 0 {
        assert(searchable(p[i]));
    }
}

/// After filling a search walk, each of its cells is joined to its first
/// and to its last cell.
pub proof fn lemma_filled_walk_joined(tiles: Seq<Tile>, p: Seq<Coord>, start: Coord, i: int)
    requires
        tiles.len() == CHUNK_AREA,
        search_walk(p, start),
        in_chunk(start),
        0 <= i < p.len(),
    ensures
        joined(filled(tiles, p), p[i], p.last()),
        joined(filled(tiles, p), p[i], start),
{
    let t = filled(tiles, p);
    assert forall|j: int| 0 <= j < p.len() implies passable(t, #[trigger] p[j]) by {
        lemma_walk_in_chunk(p, start, j);
        lemma_index_coord(p[j]);
        assert(on_path(p, index_coord(tile_index(p[j]))));
    }
    let tail = p.subrange(i, p.len() as int);
    assert forall|j: int| 0 <= j < tail.len() implies passable(t, #[trigger] tail[j]) by {
        assert(tail[j] == p[i + j]);
    }
    assert forall|j: int| 0 <= j < tail.len() - 1 implies orthogonal_neighbours(#[trigger] tail[j], tail[j + 1]) by {
        assert(tail[j] == p[i + j] && tail[j + 1] == p[i + j + 1]);
    }
    assert(is_walk(t, tail));
    assert(tail.last() == p.last());
    let head = p.subrange(0, i + 1);
    assert forall|j: int| 0 <= j < head.len() implies passable(t, #[trigger] head[j]) by {
        assert(head[j] == p[j]);
    }
    assert forall|j: int| 0 <= j < head.len() - 1 implies orthogonal_neighbours(#[trigger] head[j], head[j + 1]) by {
        assert(head[j] == p[j] && head[j + 1] == p[j + 1]);
    }
    assert(is_walk(t, head));
    assert(head[0] == start && head.last() == p[i]);
    crate::chunk::lemma_joined_symm(t, start, p[i]);
}

/// A tile that filling makes passable lies on the walk.
pub proof fn lemma_filled_new_on_walk(tiles: Seq<Tile>, p: Seq<Coord>, c: Coord)
    requires
        tiles.len() == CHUNK_AREA,
        passable(filled(tiles, p), c),
        !passable(tiles, c),
    ensures
        exists|j: int| 0 <= j < p.len() && p[j] == c,
{
    lemma_index_coord(c);
}

/// Any two cells of the chunk are joined by a search walk: one straight
/// run along each axis.
pub proof fn lemma_grid_walk(a: Coord, b: Coord) -> (p: Seq<Coord>)
    requires
        in_chunk(a),
        in_chunk(b),
    ensures
        search_walk(p, a),
        p.last() == b,
    decreases crate::coord::manhattan(a, b),
{
    if a == b {
        seq![a]
    } else {
        let n = if a.x < b.x {
            Coord { x: (a.x + 1) as i32, y: a.y }
        } else if a.x > b.x {
            Coord { x: (a.x - 1) as i32, y: a.y }
        } else if a.y < b.y {
            Coord { x: a.x, y: (a.y + 1) as i32 }
        } else {
            Coord { x: a.x, y: (a.y - 1) as i32 }
        };
        let rest = lemma_grid_walk(n, b);
        let p = seq![a] + rest;
        assert forall|i: int| 1 <= i < p.len() implies searchable(#[trigger] p[i]) by {
            assert(p[i] == rest[i - 1]);
            if i == 1 {
                assert(rest[0] == n);
            }
        }
        assert forall|i: int| 0 <= i < p.len() - 1 implies orthogonal_neighbours(#[trigger] p[i], p[i + 1]) by {
            if i == 0 {
                assert(p[1] == rest[0]);
            } else {
                assert(p[i] == rest[i - 1] && p[i + 1] == rest[i]);
            }
        }
        assert(p.last() == rest.last());
        p
    }
}

/// Whether `c` is one of the tiles in `path`.
pub open spec fn on_path(path: Seq<Coord>, c: Coord) -> bool {
    exists|k: int| 0 <= k < path.len() && path[k] == c
}

/// Whether the search may step onto `c`.
pub fn in_bounds(c: Coord) -> (r: bool)
    ensures
        r == searchable(c),
{
    c.x >= 0 && c.y >= 0 && c.x < CHUNK_SIZE_I32 && c.y < CHUNK_SIZE_I32
}

/// Whether `c` is `end`; the goal test of a tunnel search.
pub fn reached(c: &Coord, end: Coord) -> (r: bool)
    ensures
        r == (*c == end),
{
    c.x == end.x && c.y == end.y
}

/// Whether `c` is awkward for the given rooms.
pub fn is_awkward(rooms: &Vec<Room>, c: Coord) -> (r: bool)
    requires
        forall|k: int| 0 <= k < rooms@.len() ==> room_ok(#[trigger] rooms@[k]),
        in_chunk(c),
    ensures
        r == awkward(rooms@, c),
{
    if c.x == 0 || c.y == 0 || c.x == CHUNK_SIZE_I32 - 1 || c.y == CHUNK_SIZE_I32 - 1 {
        return true;
    }
    let mut k: usize = 0;
    while k < rooms.len()
        invariant
            k <= rooms@.len(),
            forall|j: int| 0 <= j < rooms@.len() ==> room_ok(#[trigger] rooms@[j]),
            forall|j: int| 0 <= j < k ==> !flanks_corner(#[trigger] rooms@[j], c),
        decreases rooms@.len() - k,
    {
        let r = rooms[k];
        let (x0, y0, x1, y1) = (r.x, r.y, r.x + r.width, r.y + r.height);
        let (x, y) = (c.x, c.y);
        if (x == x0 - 1 && y == y0 - 1) || (x == x0 && y == y0 - 1) || (x == x0 - 1 && y == y0)
            || (x == x1 && y == y0 - 1) || (x == x1 - 1 && y == y0 - 1) || (x == x1 && y == y0)
            || (x == x0 - 1 && y == y1) || (x == x0 && y == y1) || (x == x0 - 1 && y == y1 - 1)
            || (x == x1 && y == y1) || (x == x1 - 1 && y == y1) || (x == x1 && y == y1 - 1) {
            return true;
        }
        k = k + 1;
    }
    false
}

impl Chunk {
    /// For each tile of the grid, whether it is awkward for `rooms`.
    pub fn compute_awkward_points(rooms: &Vec<Room>) -> (r: Vec<bool>)
        requires
            forall|k: int| 0 <= k < rooms@.len() ==> room_ok(#[trigger] rooms@[k]),
        ensures
            r@.len() == CHUNK_AREA,
            forall|i: int| 0 <= i < CHUNK_AREA ==> #[trigger] r@[i] == awkward(rooms@, index_coord(i)),
            r@ == awkward_grid(rooms@),
    {
        let mut r: Vec<bool> = Vec::new();
        let mut i: usize = 0;
        while i < CHUNK_AREA
            invariant
                i <= CHUNK_AREA,
                r@.len() == i,
                forall|k: int| 0 <= k < rooms@.len() ==> room_ok(#[trigger] rooms@[k]),
                forall|j: int| 0 <= j < i ==> #[trigger] r@[j] == awkward(rooms@, index_coord(j)),
            decreases CHUNK_AREA - i,
        {
            proof {
                lemma_coord_index(i as int);
            }
            let c = coord((i % CHUNK_SIZE) as i32, (i / CHUNK_SIZE) as i32);
            let a = is_awkward(rooms, c);
            r.push(a);
            i = i + 1;
        }
        proof {
            assert(r@ =~= awkward_grid(rooms@));
        }
        r
    }

    /// Cost of stepping onto `c` while carving a tunnel.
    pub fn pathfinding_cost(&self, c: Coord, awkward_tiles: &Vec<bool>) -> (r: u32)
        requires
            self.wf(),
            awkward_tiles@.len() == CHUNK_AREA,
            in_chunk(c),
        ensures
            r == step_cost(self.tiles@, awkward_tiles@, c),
    {
        if self.at(c) != Tile::Wall {
            1
        } else if awkward_tiles[(c.y * CHUNK_SIZE_I32 + c.x) as usize] {
            PATHFINDING_TUNNEL_COST * 10
        } else {
            PATHFINDING_TUNNEL_COST
        }
    }

    /// The orthogonal neighbours of `c` that a tunnel search may step onto,
    /// with the cost of each step.
    pub fn pathfinding_successors(&self, c: Coord, awkward_tiles: &Vec<bool>) -> (r: Vec<
        (Coord, u32),
    >)
        requires
            self.wf(),
            awkward_tiles@.len() == CHUNK_AREA,
            in_chunk(c),
        ensures
            forall|k: int|
                0 <= k < r@.len() ==> {
                    &&& searchable(#[trigger] r@[k].0)
                    &&& orthogonal_neighbours(c, r@[k].0)
                    &&& r@[k].1 == step_cost(self.tiles@, awkward_tiles@, r@[k].0)
                },
            forall|n: Coord|
                searchable(n) && orthogonal_neighbours(c, n) ==> exists|k: int|
                    0 <= k < r@.len() && #[trigger] r@[k].0 == n,
    {
        let options = [c.top(), c.bottom(), c.left(), c.right()];
        let mut r: Vec<(Coord, u32)> = Vec::new();
        let mut k: usize = 0;
        while k < 4
            invariant
                k <= 4,
                self.wf(),
                awkward_tiles@.len() == CHUNK_AREA,
                in_chunk(c),
                options@ == seq![c.top_spec(), c.bottom_spec(), c.left_spec(), c.right_spec()],
                forall|j: int|
                    0 <= j < r@.len() ==> {
                        &&& searchable(#[trigger] r@[j].0)
                        &&& orthogonal_neighbours(c, r@[j].0)
                        &&& r@[j].1 == step_cost(self.tiles@, awkward_tiles@, r@[j].0)
                    },
                forall|j: int|
                    0 <= j < k && searchable(options@[j]) ==> exists|m: int|
                        0 <= m < r@.len() && #[trigger] r@[m].0 == options@[j],
            decreases 4 - k,
        {
            let n = options[k];
            let ghost r0 = r@;
            if in_bounds(n) {
                let cost = self.pathfinding_cost(n, awkward_tiles);
                r.push((n, cost));
                proof {
                    assert(r@[r@.len() - 1].0 == options@[k as int]);
                }
            }
            proof {
                assert forall|j: int|
                    0 <= j < k + 1 && searchable(options@[j]) implies exists|m: int|
                        0 <= m < r@.len() && #[trigger] r@[m].0 == options@[j] by {
                    if j < k {
                        let m = choose|m: int| 0 <= m < r0.len() && #[trigger] r0[m].0 == options@[j];
                        assert(r@[m] == r0[m]);
                    } else {
                        assert(r@[r@.len() - 1].0 == options@[j]);
                    }
                }
            }
            k = k + 1;
        }
        proof {
            assert forall|n: Coord| searchable(n) && orthogonal_neighbours(c, n) implies exists|m: int|
                0 <= m < r@.len() && #[trigger] r@[m].0 == n by {
                if n == c.top_spec() {
                    assert(options@[0] == n);
                } else if n == c.bottom_spec() {
                    assert(options@[1] == n);
                } else if n == c.left_spec() {
                    assert(options@[2] == n);
                } else {
                    assert(options@[3] == n);
                }
            }
        }
        r
    }

    /// Whether `c` is a floor tile; the goal test when stitching an entry.
    pub fn is_floor(&self, c: &Coord) -> (r: bool)
        requires
            self.wf(),
        ensures
            r == (in_chunk(*c) && self.tile(*c) == Tile::Floor),
    {
        if c.x >= 0 && c.y >= 0 && c.x < CHUNK_SIZE_I32 && c.y < CHUNK_SIZE_I32 {
            self.at(*c) == Tile::Floor
        } else {
            false
        }
    }

    /// Fills a room with floor.
    pub fn create_room(&mut self, room: Room)
        requires
            old(self).wf(),
            room_ok(room),
        ensures
            final(self).wf(),
            final(self).coord == old(self).coord,
            final(self).spawners == old(self).spawners,
            final(self).chests == old(self).chests,
            final(self).decorations == old(self).decorations,
            forall|i: int|
                0 <= i < CHUNK_AREA ==> #[trigger] final(self).tiles@[i] == if in_room(
                    room,
                    index_coord(i),
                ) {
                    Tile::Floor
                } else {
                    old(self).tiles@[i]
                },
            final(self).tiles@ == stamped(old(self).tiles@, room),
    {
        let ghost t0 = self.tiles@;
        let mut y: i32 = room.y;
        while y < room.y + room.height
            invariant
                self.wf(),
                self.coord == old(self).coord,
                self.spawners == old(self).spawners,
                self.chests == old(self).chests,
                self.decorations == old(self).decorations,
                t0 == old(self).tiles@,
                room_ok(room),
                room.y <= y <= room.y + room.height,
                forall|i: int|
                    0 <= i < CHUNK_AREA ==> #[trigger] self.tiles@[i] == if in_room(
                        room,
                        index_coord(i),
                    ) && index_coord(i).y < y {
                        Tile::Floor
                    } else {
                        t0[i]
                    },
            decreases room.y + room.height - y,
        {
            let mut x: i32 = room.x;
            while x < room.x + room.width
                invariant
                    self.wf(),
                    self.coord == old(self).coord,
                    self.spawners == old(self).spawners,
                    self.chests == old(self).chests,
                    self.decorations == old(self).decorations,
                    t0 == old(self).tiles@,
                    room_ok(room),
                    room.y <= y < room.y + room.height,
                    room.x <= x <= room.x + room.width,
                    forall|i: int|
                        0 <= i < CHUNK_AREA ==> #[trigger] self.tiles@[i] == if in_room(
                            room,
                            index_coord(i),
                        ) && (index_coord(i).y < y || (index_coord(i).y == y && index_coord(i).x
                            < x)) {
                            Tile::Floor
                        } else {
                            t0[i]
                        },
                decreases room.x + room.width - x,
            {
                let c = coord(x, y);
                proof {
                    lemma_index_coord(c);
                    assert forall|i: int| 0 <= i < CHUNK_AREA && i != tile_index(c) implies index_coord(i) != c by {
                        lemma_coord_index(i);
                    }
                }
                self.set(c, Tile::Floor);
                x = x + 1;
            }
            y = y + 1;
        }
        proof {
            assert(self.tiles@ =~= stamped(t0, room));
        }
    }
}


/// Why a tunnel could not be carved.
#[derive(Copy, Clone, Debug, PartialEq, Eq, Structural)]
pub enum CarveError {
    /// An end of the tunnel lies outside the chunk.
    OutOfBounds,
    /// The search found no path.
    NoPath,
}

/// A grid with the wall tiles of `path` turned into floor.
pub open spec fn filled(tiles: Seq<Tile>, path: Seq<Coord>) -> Seq<Tile> {
    Seq::new(
        tiles.len(),
        |i: int| if on_path(path, index_coord(i)) && tiles[i] == Tile::Wall { Tile::Floor } else { tiles[i] },
    )
}

/// The grid after carving a tunnel from `start` to `end`, if one is found.
pub open spec fn carved(tiles: Seq<Tile>, awkward_tiles: Seq<bool>, start: Coord, end: Coord) -> Option<
    Seq<Tile>,
> {
    if in_chunk(start) && in_chunk(end) {
        match tunnel_path(tiles, awkward_tiles, start, end) {
            Some(p) => Some(filled(tiles, p)),
            None => None,
        }
    } else {
        None
    }
}

/// The grid after carving from a border tile to the nearest floor, if a
/// way is found.
pub open spec fn stitched(tiles: Seq<Tile>, awkward_tiles: Seq<bool>, start: Coord) -> Option<Seq<Tile>> {
    if in_chunk(start) {
        match entry_path(tiles, awkward_tiles, start) {
            Some(p) => Some(filled(tiles, p)),
            None => None,
        }
    } else {
        None
    }
}

/// Whether some tile of the grid is floor.
pub open spec fn has_floor(tiles: Seq<Tile>) -> bool {
    exists|c: Coord| in_chunk(c) && #[trigger] tile_at(tiles, c) == Tile::Floor
}

/// Digging keeps floor where it was.
pub proof fn lemma_dug_keeps_floor(before: Seq<Tile>, after: Seq<Tile>)
    requires
        only_dug(before, after),
        has_floor(before),
    ensures
        has_floor(after),
{
    let c = choose|c: Coord| in_chunk(c) && #[trigger] tile_at(before, c) == Tile::Floor;
    lemma_index_coord(c);
    assert(tile_at(after, c) == Tile::Floor);
}

/// Every tile is either unchanged or was wall and is now floor.
pub open spec fn only_dug(before: Seq<Tile>, after: Seq<Tile>) -> bool {
    &&& before.len() == CHUNK_AREA
    &&& after.len() == CHUNK_AREA
    &&& forall|i: int|
        0 <= i < CHUNK_AREA ==> #[trigger] after[i] == before[i] || (before[i] == Tile::Wall
            && after[i] == Tile::Floor)
}

/// Digging keeps every passable tile passable.
pub proof fn lemma_dug_keeps_passable(before: Seq<Tile>, after: Seq<Tile>)
    requires
        only_dug(before, after),
    ensures
        keeps_passable(before, after),
{
    assert forall|c: Coord| passable(before, c) implies #[trigger] passable(after, c) by {
        lemma_index_coord(c);
        assert(after[tile_index(c)] == before[tile_index(c)] || after[tile_index(c)] == Tile::Floor);
    }
}

/// Digging twice is digging.
pub proof fn lemma_dug_trans(a: Seq<Tile>, b: Seq<Tile>, c: Seq<Tile>)
    requires
        only_dug(a, b),
        only_dug(b, c),
    ensures
        only_dug(a, c),
{
    assert forall|i: int| 0 <= i < CHUNK_AREA implies #[trigger] c[i] == a[i] || (a[i] == Tile::Wall
        && c[i] == Tile::Floor) by {
        assert(b[i] == a[i] || (a[i] == Tile::Wall && b[i] == Tile::Floor));
        assert(c[i] == b[i] || (b[i] == Tile::Wall && c[i] == Tile::Floor));
    }
}

impl Chunk {
    /// Turns the wall tiles of `nodes` into floor; other tiles stay.
    pub fn fill_path(&mut self, nodes: Vec<Coord>)
        requires
            old(self).wf(),
            forall|k: int| 0 <= k < nodes@.len() ==> in_chunk(#[trigger] nodes@[k]),
        ensures
            final(self).wf(),
            final(self).coord == old(self).coord,
            final(self).spawners == old(self).spawners,
            final(self).chests == old(self).chests,
            final(self).decorations == old(self).decorations,
            only_dug(old(self).tiles@, final(self).tiles@),
            forall|k: int| 0 <= k < nodes@.len() ==> passable(final(self).tiles@, #[trigger] nodes@[k]),
            final(self).tiles@ == filled(old(self).tiles@, nodes@),
            forall|i: int|
                0 <= i < CHUNK_AREA ==> #[trigger] final(self).tiles@[i] == if on_path(
                    nodes@,
                    index_coord(i),
                ) && old(self).tiles@[i] == Tile::Wall {
                    Tile::Floor
                } else {
                    old(self).tiles@[i]
                },
    {
        let ghost t0 = self.tiles@;
        let mut k: usize = 0;
        while k < nodes.len()
            invariant
                self.wf(),
                self.coord == old(self).coord,
                self.spawners == old(self).spawners,
                self.chests == old(self).chests,
                self.decorations == old(self).decorations,
                t0 == old(self).tiles@,
                k <= nodes@.len(),
                forall|j: int| 0 <= j < nodes@.len() ==> in_chunk(#[trigger] nodes@[j]),
                forall|j: int| 0 <= j < k ==> passable(self.tiles@, #[trigger] nodes@[j]),
                forall|i: int|
                    0 <= i < CHUNK_AREA ==> #[trigger] self.tiles@[i] == if on_path(
                        nodes@.take(k as int),
                        index_coord(i),
                    ) && t0[i] == Tile::Wall {
                        Tile::Floor
                    } else {
                        t0[i]
                    },
            decreases nodes@.len() - k,
        {
            let c = nodes[k];
            let ghost before = self.tiles@;
            proof {
                lemma_index_coord(c);
            }
            if self.at(c) == Tile::Wall {
                self.set(c, Tile::Floor);
            }
            proof {
                let pre = nodes@.take(k as int);
                let post = nodes@.take(k + 1);
                assert forall|i: int| 0 <= i < CHUNK_AREA implies #[trigger] self.tiles@[i] == if on_path(
                    post,
                    index_coord(i),
                ) && t0[i] == Tile::Wall {
                    Tile::Floor
                } else {
                    t0[i]
                } by {
                    lemma_coord_index(i);
                    if i == tile_index(c) {
                        assert(post[k as int] == c);
                        if on_path(pre, c) {
                            let m = choose|m: int| 0 <= m < pre.len() && pre[m] == c;
                            assert(post[m] == c);
                        }
                    } else {
                        assert(index_coord(i) != c);
                        if on_path(post, index_coord(i)) {
                            let m = choose|m: int| 0 <= m < post.len() && post[m] == index_coord(i);
                            assert(m != k);
                            assert(pre[m] == index_coord(i));
                        }
                        if on_path(pre, index_coord(i)) {
                            let m = choose|m: int| 0 <= m < pre.len() && pre[m] == index_coord(i);
                            assert(post[m] == index_coord(i));
                        }
                    }
                }
                assert forall|j: int| 0 <= j < k + 1 implies passable(self.tiles@, #[trigger] nodes@[j]) by {
                    lemma_index_coord(nodes@[j]);
                    if j < k {
                        assert(passable(before, nodes@[j]));
                    }
                }
            }
            k = k + 1;
        }
        proof {
            assert(nodes@.take(nodes@.len() as int) =~= nodes@);
            assert forall|i: int| 0 <= i < CHUNK_AREA implies #[trigger] self.tiles@[i] == t0[i] || (t0[i]
                == Tile::Wall && self.tiles@[i] == Tile::Floor) by {}
            assert(self.tiles@ =~= filled(t0, nodes@));
        }
    }

    /// Carves a tunnel from `start` to `end` along the cheapest path found
    /// under the tunnel cost model.
    pub fn create_path(&mut self, start: Coord, end: Coord, awkward_tiles: &Vec<bool>) -> (r: Result<
        (),
        CarveError,
    >)
        requires
            old(self).wf(),
            awkward_tiles@.len() == CHUNK_AREA,
        ensures
            final(self).wf(),
            final(self).coord == old(self).coord,
            final(self).spawners == old(self).spawners,
            final(self).chests == old(self).chests,
            final(self).decorations == old(self).decorations,
            only_dug(old(self).tiles@, final(self).tiles@),
            !(in_chunk(start) && in_chunk(end)) ==> r == Err::<(), CarveError>(CarveError::OutOfBounds),
            in_chunk(start) && in_chunk(end) ==> r is Ok,
            r is Ok ==> joined(final(self).tiles@, start, end),
            r is Err ==> final(self).tiles@ == old(self).tiles@,
            r is Ok <==> carved(old(self).tiles@, awkward_tiles@, start, end) is Some,
            r is Ok ==> exists|p: Seq<Coord>|
                #[trigger] cheapest_walk(old(self).tiles@, awkward_tiles@, start, end, p) && final(self).tiles@
                    == filled(old(self).tiles@, p),
            r is Ok ==> carved(old(self).tiles@, awkward_tiles@, start, end) == Some(final(self).tiles@),
    {
        if !(start.x >= 0 && start.y >= 0 && start.x < CHUNK_SIZE_I32 && start.y < CHUNK_SIZE_I32)
            || !(end.x >= 0 && end.y >= 0 && end.x < CHUNK_SIZE_I32 && end.y < CHUNK_SIZE_I32) {
            proof {
                assert(only_dug(self.tiles@, self.tiles@));
            }
            return Err(CarveError::OutOfBounds);
        }
        match crate::outside::tunnel_search(self, awkward_tiles, start, end) {
            Some(nodes) => {
                let ghost p = nodes@;
                self.fill_path(nodes);
                proof {
                    assert(is_walk(self.tiles@, p));
                }
                Ok(())
            },
            None => {
                proof {
                    let p = lemma_grid_walk(start, end);
                    assert(search_walk(p, start) && p.last() == end);
                    assert(false);
                }
                Err(CarveError::NoPath)
            },
        }
    }

    /// Carves from a border tile to the nearest floor, joining the chunk's
    /// rooms to its edge.
    pub fn create_chunk_entry(&mut self, start: Coord, awkward_tiles: &Vec<bool>) -> (r: Result<
        (),
        CarveError,
    >)
        requires
            old(self).wf(),
            awkward_tiles@.len() == CHUNK_AREA,
        ensures
            final(self).wf(),
            final(self).coord == old(self).coord,
            final(self).spawners == old(self).spawners,
            final(self).chests == old(self).chests,
            final(self).decorations == old(self).decorations,
            only_dug(old(self).tiles@, final(self).tiles@),
            !in_chunk(start) ==> r == Err::<(), CarveError>(CarveError::OutOfBounds),
            in_chunk(start) && r is Err ==> r == Err::<(), CarveError>(CarveError::NoPath),
            in_chunk(start) && has_floor(old(self).tiles@) ==> r is Ok,
            r is Ok ==> exists|c: Coord|
                #[trigger] passable(old(self).tiles@, c) && joined(final(self).tiles@, start, c),
            r is Err ==> final(self).tiles@ == old(self).tiles@,
            r is Ok <==> stitched(old(self).tiles@, awkward_tiles@, start) is Some,
            r is Ok ==> exists|p: Seq<Coord>|
                #[trigger] cheapest_to_floor(old(self).tiles@, awkward_tiles@, start, p) && final(self).tiles@
                    == filled(old(self).tiles@, p),
            r is Ok ==> stitched(old(self).tiles@, awkward_tiles@, start) == Some(final(self).tiles@),
    {
        if !(start.x >= 0 && start.y >= 0 && start.x < CHUNK_SIZE_I32 && start.y < CHUNK_SIZE_I32) {
            proof {
                assert(only_dug(self.tiles@, self.tiles@));
            }
            return Err(CarveError::OutOfBounds);
        }
        match crate::outside::entry_search(self, awkward_tiles, start) {
            Some(nodes) => {
                let ghost p = nodes@;
                let ghost t0 = self.tiles@;
                self.fill_path(nodes);
                proof {
                    assert(is_walk(self.tiles@, p));
                    assert(passable(t0, p.last()));
                }
                Ok(())
            },
            None => {
                proof {
                    if has_floor(self.tiles@) {
                        let c = choose|c: Coord| in_chunk(c) && #[trigger] tile_at(self.tiles@, c) == Tile::Floor;
                        let p = lemma_grid_walk(start, c);
                        assert(search_walk(p, start) && in_chunk(p.last()) && self.tile(p.last()) == Tile::Floor);
                        assert(false);
                    }
                    assert(only_dug(self.tiles@, self.tiles@));
                }
                Err(CarveError::NoPath)
            },
        }
    }
}

} // verus!
