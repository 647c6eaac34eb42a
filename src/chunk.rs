//! One fixed-size square of the world: its tile grid and the features
//! placed in it.
use vstd::prelude::*;
use crate::coord::{Coord, orthogonal_neighbours};
use crate::geometry::{point, Point, POINT_SCALE};
use crate::map::Tile;

verus! {

/// Tiles along one side of a chunk.
pub const CHUNK_SIZE: usize = 50;

/// [`CHUNK_SIZE`] as a signed coordinate.
pub const CHUNK_SIZE_I32: i32 = 50;

/// Tiles in a chunk.
pub const CHUNK_AREA: usize = 2500;

/// Whether `c` is a local coordinate of a chunk.
pub open spec fn in_chunk(c: Coord) -> bool {
    0 <= c.x < CHUNK_SIZE_I32 && 0 <= c.y < CHUNK_SIZE_I32
}

/// Index of a local coordinate in the row-major tile grid.
pub open spec fn tile_index(c: Coord) -> int {
    c.y * CHUNK_SIZE_I32 + c.x
}

/// The local coordinate stored at a grid index.
pub open spec fn index_coord(i: int) -> Coord {
    Coord { x: (i % CHUNK_SIZE_I32 as int) as i32, y: (i / CHUNK_SIZE_I32 as int) as i32 }
}

/// The tile at a local coordinate of a grid.
pub open spec fn tile_at(tiles: Seq<Tile>, c: Coord) -> Tile {
    tiles[tile_index(c)]
}

/// Whether a local coordinate lies in the chunk and holds anything but wall.
pub open spec fn passable(tiles: Seq<Tile>, c: Coord) -> bool {
    in_chunk(c) && tile_at(tiles, c) != Tile::Wall
}

/// Whether `p` is a walk over passable tiles, one orthogonal step at a time.
pub open spec fn is_walk(tiles: Seq<Tile>, p: Seq<Coord>) -> bool {
    &&& p.len() > 0
    &&& forall|i: int| 0 <= i < p.len() ==> passable(tiles, #[trigger] p[i])
    &&& forall|i: int| 0 <= i < p.len() - 1 ==> orthogonal_neighbours(#[trigger] p[i], p[i + 1])
}

/// Whether some walk over passable tiles leads from `a` to `b`.
pub open spec fn joined(tiles: Seq<Tile>, a: Coord, b: Coord) -> bool {
    exists|p: Seq<Coord>| #[trigger] is_walk(tiles, p) && p[0] == a && p.last() == b
}

/// Every tile passable in `before` is passable in `after`.
pub open spec fn keeps_passable(before: Seq<Tile>, after: Seq<Tile>) -> bool {
    forall|c: Coord| passable(before, c) ==> #[trigger] passable(after, c)
}

/// A local coordinate round-trips through its grid index.
pub proof fn lemma_index_coord(c: Coord)
    requires
        in_chunk(c),
    ensures
        0 <= tile_index(c) < CHUNK_AREA,
        index_coord(tile_index(c)) == c,
{
    vstd::arithmetic::div_mod::lemma_fundamental_div_mod_converse(
        tile_index(c),
        CHUNK_SIZE_I32 as int,
        c.y as int,
        c.x as int,
    );
}

/// A grid index round-trips through its local coordinate.
pub proof fn lemma_coord_index(i: int)
    requires
        0 <= i < CHUNK_AREA,
    ensures
        in_chunk(index_coord(i)),
        tile_index(index_coord(i)) == i,
{
    vstd::arithmetic::div_mod::lemma_fundamental_div_mod(i, CHUNK_SIZE_I32 as int);
    vstd::arithmetic::div_mod::lemma_div_pos_is_pos(i, CHUNK_SIZE_I32 as int);
    vstd::arithmetic::div_mod::lemma_div_is_ordered(i, CHUNK_AREA as int, CHUNK_SIZE_I32 as int);
}

/// Distinct local coordinates sit at distinct grid indices.
pub proof fn lemma_index_injective(a: Coord, b: Coord)
    requires
        in_chunk(a),
        in_chunk(b),
        tile_index(a) == tile_index(b),
    ensures
        a == b,
{
    lemma_index_coord(a);
    lemma_index_coord(b);
}

/// A walk stays a walk when no passable tile is lost.
pub proof fn lemma_joined_kept(before: Seq<Tile>, after: Seq<Tile>, a: Coord, b: Coord)
    requires
        joined(before, a, b),
        keeps_passable(before, after),
    ensures
        joined(after, a, b),
{
    let p = choose|p: Seq<Coord>| #[trigger] is_walk(before, p) && p[0] == a && p.last() == b;
    assert forall|i: int| 0 <= i < p.len() implies passable(after, #[trigger] p[i]) by {
        assert(passable(before, p[i]));
    }
    assert(is_walk(after, p));
}

/// A passable tile is joined to itself.
pub proof fn lemma_joined_refl(tiles: Seq<Tile>, a: Coord)
    requires
        passable(tiles, a),
    ensures
        joined(tiles, a, a),
{
    let p = seq![a];
    assert(is_walk(tiles, p));
}

/// Walks can be taken backwards.
pub proof fn lemma_joined_symm(tiles: Seq<Tile>, a: Coord, b: Coord)
    requires
        joined(tiles, a, b),
    ensures
        joined(tiles, b, a),
{
    let p = choose|p: Seq<Coord>| #[trigger] is_walk(tiles, p) && p[0] == a && p.last() == b;
    let q = p.reverse();
    assert forall|i: int| 0 <= i < q.len() implies passable(tiles, #[trigger] q[i]) by {
        assert(q[i] == p[p.len() - 1 - i]);
    }
    assert forall|i: int| 0 <= i < q.len() - 1 implies orthogonal_neighbours(#[trigger] q[i], q[i + 1]) by {
        let j = p.len() - 2 - i;
        assert(q[i] == p[j + 1]);
        assert(q[i + 1] == p[j]);
        assert(orthogonal_neighbours(p[j], p[j + 1]));
    }
    assert(is_walk(tiles, q));
}

/// Walks can be chained.
pub proof fn lemma_joined_trans(tiles: Seq<Tile>, a: Coord, b: Coord, c: Coord)
    requires
        joined(tiles, a, b),
        joined(tiles, b, c),
    ensures
        joined(tiles, a, c),
{
    let p = choose|p: Seq<Coord>| #[trigger] is_walk(tiles, p) && p[0] == a && p.last() == b;
    let q = choose|q: Seq<Coord>| #[trigger] is_walk(tiles, q) && q[0] == b && q.last() == c;
    let w = p + q.skip(1);
    assert forall|i: int| 0 <= i < w.len() implies passable(tiles, #[trigger] w[i]) by {
        if i < p.len() {
            assert(w[i] == p[i]);
        } else {
            assert(w[i] == q[i - p.len() + 1]);
        }
    }
    assert forall|i: int| 0 <= i < w.len() - 1 implies orthogonal_neighbours(#[trigger] w[i], w[i + 1]) by {
        if i < p.len() - 1 {
            assert(w[i] == p[i] && w[i + 1] == p[i + 1]);
        } else if i == p.len() - 1 {
            assert(w[i] == p[i] && p[i] == q[0]);
            assert(w[i + 1] == q[1]);
        } else {
            let j = i - p.len() + 1;
            assert(w[i] == q[j] && w[i + 1] == q[j + 1]);
        }
    }
    if q.len() == 1 {
        assert(w =~= p);
    } else {
        assert(w.last() == q.last());
    }
    assert(is_walk(tiles, w));
}

/// A reward cache: where it stands in the world.
#[derive(Copy, Clone, Debug, PartialEq, Eq, Structural)]
pub struct Chest {
    pub position: Point,
}

impl Chest {
    /// A cache at `position`.
    pub fn new(position: Point) -> (r: Self)
        ensures
            r.position == position,
    {
        Chest { position }
    }

    /// Where the cache stands.
    pub fn position(&self) -> (r: Point)
        ensures
            r == self.position,
    {
        self.position
    }
}

/// Chunk coordinates whose world positions stay well inside `i64`.
pub open spec fn chunk_coord_ok(c: Coord) -> bool {
    -50_000_000 <= c.x <= 50_000_000 && -50_000_000 <= c.y <= 50_000_000
}

/// World position, in thousandths of a tile, of a chunk's lower corner.
pub open spec fn chunk_origin(c: Coord) -> Point {
    Point {
        x: ((c.x * CHUNK_SIZE_I32 - CHUNK_SIZE_I32 / 2) * POINT_SCALE) as i64,
        y: ((c.y * CHUNK_SIZE_I32 - CHUNK_SIZE_I32 / 2) * POINT_SCALE) as i64,
    }
}

/// A point moved by the origin of chunk `c`.
pub open spec fn to_world(c: Coord, p: Point) -> Point {
    Point { x: (p.x + chunk_origin(c).x) as i64, y: (p.y + chunk_origin(c).y) as i64 }
}

/// Local positions, in thousandths of a tile, that lie within a chunk.
pub open spec fn local_point_ok(p: Point) -> bool {
    0 <= p.x <= CHUNK_SIZE * POINT_SCALE && 0 <= p.y <= CHUNK_SIZE * POINT_SCALE
}

/// World positions within `2^43` thousandths of a tile of the origin.
pub open spec fn world_point_ok(p: Point) -> bool {
    -0x800_0000_0000 <= p.x <= 0x800_0000_0000 && -0x800_0000_0000 <= p.y <= 0x800_0000_0000
}

/// A chunk: its grid of tiles and its features, positioned in the world.
#[derive(Debug)]
pub struct Chunk {
    pub coord: Coord,
    pub tiles: Vec<Tile>,
    pub spawners: Vec<Point>,
    pub chests: Vec<Chest>,
    pub decorations: Vec<Point>,
}

impl Chunk {
    /// A full grid and a coordinate whose positions fit.
    pub open spec fn wf(&self) -> bool {
        &&& self.tiles@.len() == CHUNK_AREA
        &&& chunk_coord_ok(self.coord)
        &&& forall|k: int| 0 <= k < self.spawners@.len() ==> world_point_ok(#[trigger] self.spawners@[k])
        &&& forall|k: int| 0 <= k < self.chests@.len() ==> world_point_ok((#[trigger] self.chests@[k]).position)
        &&& forall|k: int| 0 <= k < self.decorations@.len() ==> world_point_ok(#[trigger] self.decorations@[k])
    }

    /// The tile at a local coordinate.
    pub open spec fn tile(&self, c: Coord) -> Tile {
        tile_at(self.tiles@, c)
    }

    /// A chunk of solid wall with no features, at `coord`.
    pub fn empty(coord: Coord) -> (r: Self)
        requires
            chunk_coord_ok(coord),
        ensures
            r.wf(),
            r.coord == coord,
            forall|i: int| 0 <= i < CHUNK_AREA ==> r.tiles@[i] == Tile::Wall,
            r.spawners@.len() == 0,
            r.chests@.len() == 0,
            r.decorations@.len() == 0,
    {
        let mut tiles: Vec<Tile> = Vec::new();
        while tiles.len() < CHUNK_AREA
            invariant
                tiles@.len() <= CHUNK_AREA,
                forall|i: int| 0 <= i < tiles@.len() ==> tiles@[i] == Tile::Wall,
            decreases CHUNK_AREA - tiles@.len(),
        {
            tiles.push(Tile::Wall);
        }
        Chunk { coord, tiles, spawners: Vec::new(), chests: Vec::new(), decorations: Vec::new() }
    }

    /// The chunk's coordinate in the grid of chunks.
    pub fn coord(&self) -> (r: Coord)
        ensures
            r == self.coord,
    {
        self.coord
    }

    /// The tile at a local coordinate.
    pub fn at(&self, c: Coord) -> (r: Tile)
        requires
            self.wf(),
            in_chunk(c),
        ensures
            r == self.tile(c),
    {
        self.tiles[(c.y * CHUNK_SIZE_I32 + c.x) as usize]
    }

    /// Replaces the tile at a local coordinate.
    pub fn set(&mut self, c: Coord, tile: Tile)
        requires
            old(self).wf(),
            in_chunk(c),
        ensures
            final(self).wf(),
            final(self).tiles@ == old(self).tiles@.update(tile_index(c), tile),
            final(self).coord == old(self).coord,
            final(self).spawners == old(self).spawners,
            final(self).chests == old(self).chests,
            final(self).decorations == old(self).decorations,
    {
        self.tiles.set((c.y * CHUNK_SIZE_I32 + c.x) as usize, tile);
    }

    /// World position, in thousandths of a tile, of the chunk's lower corner.
    pub fn chunk_start(&self) -> (r: Point)
        requires
            self.wf(),
        ensures
            r == chunk_origin(self.coord),
    {
        point(
            (self.coord.x as i64 * 50 - 25) * POINT_SCALE,
            (self.coord.y as i64 * 50 - 25) * POINT_SCALE,
        )
    }

    /// Records a spawner at a local position.
    pub fn create_spawner(&mut self, position: Point)
        requires
            old(self).wf(),
            local_point_ok(position),
        ensures
            final(self).wf(),
            final(self).spawners@ == old(self).spawners@.push(to_world(old(self).coord, position)),
            final(self).tiles == old(self).tiles,
            final(self).coord == old(self).coord,
            final(self).chests == old(self).chests,
            final(self).decorations == old(self).decorations,
    {
        let offset = self.chunk_start();
        self.spawners.push(point(position.x + offset.x, position.y + offset.y));
    }

    /// Records a reward cache at a local position.
    pub fn create_chest(&mut self, position: Point)
        requires
            old(self).wf(),
            local_point_ok(position),
        ensures
            final(self).wf(),
            final(self).chests@ == old(self).chests@.push(
                Chest { position: to_world(old(self).coord, position) },
            ),
            final(self).tiles == old(self).tiles,
            final(self).coord == old(self).coord,
            final(self).spawners == old(self).spawners,
            final(self).decorations == old(self).decorations,
    {
        let offset = self.chunk_start();
        self.chests.push(Chest::new(point(position.x + offset.x, position.y + offset.y)));
    }

    /// Records a decoration at a local position.
    pub fn create_decoration(&mut self, position: Point)
        requires
            old(self).wf(),
            local_point_ok(position),
        ensures
            final(self).wf(),
            final(self).decorations@ == old(self).decorations@.push(
                to_world(old(self).coord, position),
            ),
            final(self).tiles == old(self).tiles,
            final(self).coord == old(self).coord,
            final(self).spawners == old(self).spawners,
            final(self).chests == old(self).chests,
    {
        let offset = self.chunk_start();
        self.decorations.push(point(position.x + offset.x, position.y + offset.y));
    }

    /// The spawner positions, in world space.
    pub fn spawners(&self) -> (r: &Vec<Point>)
        ensures
            r == &self.spawners,
    {
        &self.spawners
    }

    /// The reward caches.
    pub fn chests(&self) -> (r: &Vec<Chest>)
        ensures
            r == &self.chests,
    {
        &self.chests
    }

    /// The decoration positions, in world space.
    pub fn decorations(&self) -> (r: &Vec<Point>)
        ensures
            r == &self.decorations,
    {
        &self.decorations
    }
}

} // verus!
