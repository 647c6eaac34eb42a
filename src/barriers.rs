//! Entry points on a chunk's border, and barriers in room doorways.
use vstd::prelude::*;
use crate::chunk::{
    in_chunk, keeps_passable, lemma_coord_index, lemma_index_coord, lemma_index_injective,
    passable, tile_at, tile_index, Chunk, CHUNK_AREA, CHUNK_SIZE_I32,
};
use crate::coord::{box_at, box_len, coord, in_box, manhattan, Coord};
use crate::map::Tile;
use crate::random::{chance_hit, draw, step, Random};
use crate::rooms::{room_ok, Room};
use crate::carving::{around_room, chokepoint, in_room, on_border};

verus! {

/// Border tiles per entry point on each side of a chunk.
pub const TILES_PER_CHUNK_ENTRY: usize = 8;

/// Entry points on one side of a chunk.
pub const ENTRIES_PER_SIDE: usize = 6;

/// Chance, as a fraction, that a doorway gets a barrier.
pub const BARRIER_NUM: u32 = 1;

pub const BARRIER_DEN: u32 = 2;

/// The state reached after `n` steps from `s`.
pub open spec fn nth_state(s: u32, n: nat) -> u32
    decreases n,
{
    if n == 0 {
        s
    } else {
        step(nth_state(s, (n - 1) as nat))
    }
}

/// Seed of the stream that places the entries of one side: the hash of the
/// chunk on that side's far end, scrambled for horizontal sides.
pub open spec fn side_seed(c: Coord, vertical: bool) -> u32 {
    let h = crate::outside::coord_hash(c.x, c.y);
    if vertical {
        h.wrapping_mul(31)
    } else {
        h
    }
}

/// Position along the side of the `i`-th entry: one per stretch of eight
/// border tiles, never on the first or last tile of a stretch.
pub open spec fn side_entry(c: Coord, vertical: bool, i: int) -> int {
    8 * i + 1 + draw(nth_state(side_seed(c, vertical), i as nat)) as int % 6
}

/// The `i`-th entry point of chunk `c`, sides taken in turn: left, bottom,
/// top, right.
pub open spec fn entry_point(c: Coord, i: int) -> Coord {
    let j = i / 4;
    if i % 4 == 0 {
        Coord { x: 0, y: side_entry(c, false, j) as i32 }
    } else if i % 4 == 1 {
        Coord { x: side_entry(c, true, j) as i32, y: 0 }
    } else if i % 4 == 2 {
        Coord { x: side_entry(c.top_spec(), true, j) as i32, y: 49 }
    } else {
        Coord { x: 49, y: side_entry(c.right_spec(), false, j) as i32 }
    }
}

proof fn lemma_entry_index(i: int)
    requires
        0 <= i,
    ensures
        (4 * i) / 4 == i && (4 * i) % 4 == 0,
        (4 * i + 1) / 4 == i && (4 * i + 1) % 4 == 1,
        (4 * i + 2) / 4 == i && (4 * i + 2) % 4 == 2,
        (4 * i + 3) / 4 == i && (4 * i + 3) % 4 == 3,
{
    vstd::arithmetic::div_mod::lemma_fundamental_div_mod_converse(4 * i, 4, i, 0);
    vstd::arithmetic::div_mod::lemma_fundamental_div_mod_converse(4 * i + 1, 4, i, 1);
    vstd::arithmetic::div_mod::lemma_fundamental_div_mod_converse(4 * i + 2, 4, i, 2);
    vstd::arithmetic::div_mod::lemma_fundamental_div_mod_converse(4 * i + 3, 4, i, 3);
}

/// Entry points lie on the chunk's border.
proof fn lemma_entry_point(c: Coord, i: int)
    requires
        0 <= i < 4 * ENTRIES_PER_SIDE,
    ensures
        in_chunk(entry_point(c, i)),
        on_border(entry_point(c, i)),
{
    let j = i / 4;
    vstd::arithmetic::div_mod::lemma_fundamental_div_mod(i, 4);
    assert(0 <= j < ENTRIES_PER_SIDE);
    lemma_side_entry_bound(c, false, j);
    lemma_side_entry_bound(c, true, j);
    lemma_side_entry_bound(c.top_spec(), true, j);
    lemma_side_entry_bound(c.right_spec(), false, j);
}

proof fn lemma_side_entry_bound(c: Coord, vertical: bool, i: int)
    requires
        0 <= i < ENTRIES_PER_SIDE,
    ensures
        8 * i + 1 <= side_entry(c, vertical, i) < 8 * i + 7,
{
}

/// Whether `c` has all four neighbours inside the chunk.
pub open spec fn inner(c: Coord) -> bool {
    1 <= c.x <= CHUNK_SIZE_I32 - 2 && 1 <= c.y <= CHUNK_SIZE_I32 - 2
}

/// The coordinates of `cells` that are inner, in order.
pub open spec fn keep_inner(cells: Seq<Coord>) -> Seq<Coord>
    decreases cells.len(),
{
    if cells.len() == 0 {
        seq![]
    } else {
        let r = keep_inner(cells.drop_last());
        if inner(cells.last()) { r.push(cells.last()) } else { r }
    }
}

/// The coordinates of the box `start..=end`, row by row.
pub open spec fn box_cells(start: Coord, end: Coord) -> Seq<Coord> {
    Seq::new(box_len(start, end), |i: int| box_at(start, end, i))
}

/// The inner coordinates of the segment `start..=end`.
pub open spec fn side_cells(start: Coord, end: Coord) -> Seq<Coord> {
    keep_inner(box_cells(start, end))
}

/// The inner coordinates of the ring around `r`: its bottom, left, right
/// and top sides.
pub open spec fn ring_cells(r: Room) -> Seq<Coord> {
    let bl = Coord { x: (r.x - 1) as i32, y: (r.y - 1) as i32 };
    let tr = Coord { x: (r.x + r.width) as i32, y: (r.y + r.height) as i32 };
    let tl = Coord { x: bl.x, y: tr.y };
    let br = Coord { x: tr.x, y: bl.y };
    side_cells(bl, br) + side_cells(bl, tl) + side_cells(br, tr) + side_cells(tl, tr)
}

/// The barrier candidates of `rooms`, ring by ring.
pub open spec fn candidates(rooms: Seq<Room>) -> Seq<Coord>
    decreases rooms.len(),
{
    if rooms.len() == 0 {
        seq![]
    } else {
        candidates(rooms.drop_last()) + ring_cells(rooms.last())
    }
}

/// Whether some position of `ps` is within one step of `c`.
pub open spec fn near_any(ps: Seq<Coord>, c: Coord) -> bool {
    exists|j: int| 0 <= j < ps.len() && manhattan(c, #[trigger] ps[j]) <= 1
}

/// One candidate `c` of barrier placement, from the grid, the chosen
/// positions and the state in `g`: a floor doorway not next to a chosen
/// position is chosen, and barred with the barrier chance or always when it
/// lies around the first room.
pub open spec fn bar_step(g: (Seq<Tile>, Seq<Coord>, u32), rooms: Seq<Room>, c: Coord) -> (
    Seq<Tile>,
    Seq<Coord>,
    u32,
) {
    let (t, p, st) = g;
    if tile_at(t, c) == Tile::Floor && chokepoint(t, c) && !near_any(p, c) {
        let barred = chance_hit(draw(st), BARRIER_NUM, BARRIER_DEN) || (rooms.len() > 0 && around_room(
            rooms[0],
            c,
        ));
        (if barred { t.update(tile_index(c), Tile::Barrier) } else { t }, p.push(c), step(st))
    } else {
        g
    }
}

/// Barrier placement over the first `n` candidates, from the grid `tiles`,
/// the chosen positions `ps` and state `s`: the grid, the positions and the
/// state after.
pub open spec fn bar_fold(
    tiles: Seq<Tile>,
    ps: Seq<Coord>,
    s: u32,
    rooms: Seq<Room>,
    cands: Seq<Coord>,
    n: int,
) -> (Seq<Tile>, Seq<Coord>, u32)
    decreases n,
{
    if n <= 0 {
        (tiles, ps, s)
    } else {
        bar_step(bar_fold(tiles, ps, s, rooms, cands, n - 1), rooms, cands[n - 1])
    }
}

/// The grid and state after placing the barriers of `rooms`.
pub open spec fn barred(tiles: Seq<Tile>, s: u32, rooms: Seq<Room>) -> (Seq<Tile>, u32) {
    let cands = candidates(rooms);
    let r = bar_fold(tiles, seq![], s, rooms, cands, cands.len() as int);
    (r.0, r.2)
}

/// Every tile is either unchanged or was floor and is now a barrier.
pub open spec fn only_barred(before: Seq<Tile>, after: Seq<Tile>) -> bool {
    &&& before.len() == CHUNK_AREA
    &&& after.len() == CHUNK_AREA
    &&& forall|i: int|
        0 <= i < CHUNK_AREA ==> #[trigger] after[i] == before[i] || (before[i] == Tile::Floor
            && after[i] == Tile::Barrier)
}

/// Barring keeps every passable tile passable.
pub proof fn lemma_barred_keeps_passable(before: Seq<Tile>, after: Seq<Tile>)
    requires
        only_barred(before, after),
    ensures
        keeps_passable(before, after),
{
    assert forall|c: Coord| passable(before, c) implies #[trigger] passable(after, c) by {
        lemma_index_coord(c);
        assert(after[tile_index(c)] == before[tile_index(c)] || after[tile_index(c)] == Tile::Barrier);
    }
}

/// Whether `c` lies on the ring of tiles around room `r`.
pub open spec fn on_ring(r: Room, c: Coord) -> bool {
    around_room(r, c) && !in_room(r, c)
}

/// Whether `c` is a tile of the rings of `rooms` that can hold a barrier:
/// on a ring, and with all four neighbours inside the chunk.
pub open spec fn ring_candidate(rooms: Seq<Room>, c: Coord) -> bool {
    &&& 1 <= c.x <= CHUNK_SIZE_I32 - 2
    &&& 1 <= c.y <= CHUNK_SIZE_I32 - 2
    &&& exists|k: int| 0 <= k < rooms.len() && around_room(#[trigger] rooms[k], c)
}

impl Chunk {
    /// Positions of the entries on one side of the chunk `c`.
    pub fn chunk_side_entries(c: Coord, vertical: bool) -> (r: Vec<i32>)
        ensures
            r@.len() == ENTRIES_PER_SIDE,
            forall|i: int| 0 <= i < ENTRIES_PER_SIDE ==> #[trigger] r@[i] == side_entry(c, vertical, i),
            forall|i: int| 0 <= i < ENTRIES_PER_SIDE ==> 8 * i + 1 <= #[trigger] r@[i] < 8 * i + 7,
    {
        let mut hash = crate::outside::hash_coord(c);
        if vertical {
            hash = hash.wrapping_mul(31);
        }
        let mut random = Random::new(hash);
        let mut r: Vec<i32> = Vec::new();
        let mut i: usize = 0;
        while i < ENTRIES_PER_SIDE
            invariant
                i <= ENTRIES_PER_SIDE,
                r@.len() == i,
                random.state == nth_state(side_seed(c, vertical), i as nat),
                forall|j: int| 0 <= j < i ==> #[trigger] r@[j] == side_entry(c, vertical, j),
                forall|j: int| 0 <= j < i ==> 8 * j + 1 <= #[trigger] r@[j] < 8 * j + 7,
            decreases ENTRIES_PER_SIDE - i,
        {
            let base = (i * TILES_PER_CHUNK_ENTRY) as u32;
            let range = base + 1..base + TILES_PER_CHUNK_ENTRY as u32 - 1;
            let v = random.next_u32_in(&range);
            r.push(v as i32);
            i = i + 1;
        }
        r
    }

    /// The entry points on all four sides of this chunk: left and bottom
    /// from this chunk's coordinate, top and right from its neighbours', so
    /// that adjacent chunks draw their shared side alike.
    pub fn chunk_entries(&self) -> (r: Vec<Coord>)
        requires
            self.wf(),
        ensures
            r@.len() == 4 * ENTRIES_PER_SIDE,
            forall|i: int| 0 <= i < r@.len() ==> #[trigger] r@[i] == entry_point(self.coord, i),
            forall|i: int| 0 <= i < r@.len() ==> in_chunk(#[trigger] r@[i]) && on_border(r@[i]),
    {
        let left = Self::chunk_side_entries(self.coord, false);
        let bottom = Self::chunk_side_entries(self.coord, true);
        let top = Self::chunk_side_entries(self.coord.top(), true);
        let right = Self::chunk_side_entries(self.coord.right(), false);
        let mut r: Vec<Coord> = Vec::new();
        let mut i: usize = 0;
        while i < ENTRIES_PER_SIDE
            invariant
                i <= ENTRIES_PER_SIDE,
                r@.len() == 4 * i,
                left@.len() == ENTRIES_PER_SIDE,
                bottom@.len() == ENTRIES_PER_SIDE,
                top@.len() == ENTRIES_PER_SIDE,
                right@.len() == ENTRIES_PER_SIDE,
                forall|j: int| 0 <= j < ENTRIES_PER_SIDE ==> #[trigger] left@[j] == side_entry(self.coord, false, j),
                forall|j: int| 0 <= j < ENTRIES_PER_SIDE ==> #[trigger] bottom@[j] == side_entry(self.coord, true, j),
                forall|j: int| 0 <= j < ENTRIES_PER_SIDE ==> #[trigger] top@[j] == side_entry(self.coord.top_spec(), true, j),
                forall|j: int| 0 <= j < ENTRIES_PER_SIDE ==> #[trigger] right@[j] == side_entry(self.coord.right_spec(), false, j),
                forall|j: int| 0 <= j < r@.len() ==> #[trigger] r@[j] == entry_point(self.coord, j),
            decreases ENTRIES_PER_SIDE - i,
        {
            let ghost r0 = r@;
            proof {
                lemma_entry_index(i as int);
            }
            r.push(coord(0, left[i]));
            r.push(coord(bottom[i], 0));
            r.push(coord(top[i], CHUNK_SIZE_I32 - 1));
            r.push(coord(CHUNK_SIZE_I32 - 1, right[i]));
            proof {
                assert forall|j: int| 0 <= j < r@.len() implies #[trigger] r@[j] == entry_point(self.coord, j) by {
                    if j < r0.len() {
                        assert(r@[j] == r0[j]);
                    }
                }
            }
            i = i + 1;
        }
        proof {
            assert forall|j: int| 0 <= j < r@.len() implies in_chunk(#[trigger] r@[j]) && on_border(r@[j]) by {
                lemma_entry_point(self.coord, j);
            }
        }
        r
    }

    /// Whether `c` is a one-tile doorway.
    pub fn is_barrier_location(&self, c: Coord) -> (r: bool)
        requires
            self.wf(),
            1 <= c.x <= CHUNK_SIZE_I32 - 2,
            1 <= c.y <= CHUNK_SIZE_I32 - 2,
        ensures
            r == chokepoint(self.tiles@, c),
    {
        let top = self.at(c.top());
        let bottom = self.at(c.bottom());
        let left = self.at(c.left());
        let right = self.at(c.right());
        (left == Tile::Wall && right == Tile::Wall && top != Tile::Wall && bottom != Tile::Wall) || (
        top == Tile::Wall && bottom == Tile::Wall && left != Tile::Wall && right != Tile::Wall)
    }

    /// Whether `c` lies on `room` or on the ring around it.
    pub fn is_room_barrier(&self, c: Coord, room: &Room) -> (r: bool)
        requires
            room_ok(*room),
        ensures
            r == around_room(*room, c),
    {
        c.is_between_inclusive(coord(room.x - 1, room.y - 1), room.max_coord())
    }

    /// The tiles of the rings around `rooms` that can hold a barrier, ring by
    /// ring, each ring as its bottom, left, right and top sides.
    pub fn barrier_candidates(rooms: &Vec<Room>) -> (r: Vec<Coord>)
        requires
            forall|k: int| 0 <= k < rooms@.len() ==> room_ok(#[trigger] rooms@[k]),
        ensures
            forall|i: int| 0 <= i < r@.len() ==> ring_candidate(rooms@, #[trigger] r@[i]),
            r@ == candidates(rooms@),
    {
        let min_coord = coord(1, 1);
        let max_coord = coord(CHUNK_SIZE_I32 - 2, CHUNK_SIZE_I32 - 2);
        let mut r: Vec<Coord> = Vec::new();
        let mut k: usize = 0;
        while k < rooms.len()
            invariant
                k <= rooms@.len(),
                min_coord == (Coord { x: 1, y: 1 }),
                max_coord == (Coord { x: 48, y: 48 }),
                forall|j: int| 0 <= j < rooms@.len() ==> room_ok(#[trigger] rooms@[j]),
                forall|i: int| 0 <= i < r@.len() ==> ring_candidate(rooms@, #[trigger] r@[i]),
                r@ == candidates(rooms@.take(k as int)),
            decreases rooms@.len() - k,
        {
            let room = rooms[k];
            proof {
                assert(rooms@.take(k + 1).drop_last() =~= rooms@.take(k as int));
            }
            let bottom_left = coord(room.x - 1, room.y - 1);
            let top_right = room.max_coord();
            let top_left = coord(bottom_left.x, top_right.y);
            let bottom_right = coord(top_right.x, bottom_left.y);
            push_ring_side(rooms, k, bottom_left, bottom_right, &mut r);
            push_ring_side(rooms, k, bottom_left, top_left, &mut r);
            push_ring_side(rooms, k, bottom_right, top_right, &mut r);
            push_ring_side(rooms, k, top_left, top_right, &mut r);
            proof {
                assert(r@ =~= candidates(rooms@.take(k + 1)));
            }
            k = k + 1;
        }
        proof {
            assert(rooms@.take(k as int) =~= rooms@);
        }
        r
    }

    /// Puts barriers in the doorways of the rooms: each doorway not next to
    /// one already chosen is chosen, and barred with a fixed chance, or
    /// always when it belongs to the first room.
    pub fn add_barriers(&mut self, rooms: &Vec<Room>, random: &mut Random)
        requires
            old(self).wf(),
            forall|k: int| 0 <= k < rooms@.len() ==> room_ok(#[trigger] rooms@[k]),
        ensures
            final(self).wf(),
            final(self).coord == old(self).coord,
            final(self).spawners == old(self).spawners,
            final(self).chests == old(self).chests,
            final(self).decorations == old(self).decorations,
            only_barred(old(self).tiles@, final(self).tiles@),
            forall|c: Coord|
                in_chunk(c) && #[trigger] tile_at(final(self).tiles@, c) != tile_at(old(self).tiles@, c) ==> chokepoint(
                    old(self).tiles@,
                    c,
                ) && ring_candidate(rooms@, c),
            (final(self).tiles@, final(random).state) == barred(old(self).tiles@, old(random).state, rooms@),
    {
        let ghost t0 = self.tiles@;
        let cands = Self::barrier_candidates(rooms);
        let mut barrier_positions: Vec<Coord> = Vec::new();
        let mut i: usize = 0;
        while i < cands.len()
            invariant
                self.wf(),
                self.coord == old(self).coord,
                self.spawners == old(self).spawners,
                self.chests == old(self).chests,
                self.decorations == old(self).decorations,
                t0 == old(self).tiles@,
                forall|k: int| 0 <= k < rooms@.len() ==> room_ok(#[trigger] rooms@[k]),
                forall|q: int| 0 <= q < cands@.len() ==> ring_candidate(rooms@, #[trigger] cands@[q]),
                only_barred(t0, self.tiles@),
                forall|c: Coord|
                    in_chunk(c) && #[trigger] tile_at(self.tiles@, c) != tile_at(t0, c) ==> chokepoint(t0, c)
                        && ring_candidate(rooms@, c),
                forall|q: int| 0 <= q < barrier_positions@.len() ==> in_chunk(#[trigger] barrier_positions@[q]),
                i <= cands@.len(),
                cands@ == candidates(rooms@),
                bar_fold(t0, seq![], old(random).state, rooms@, cands@, i as int) == (
                    self.tiles@,
                    barrier_positions@,
                    random.state,
                ),
            decreases cands@.len() - i,
        {
            let c = cands[i];
            proof {
                assert(ring_candidate(rooms@, c));
                lemma_index_coord(c);
            }
            if self.at(c) == Tile::Floor && self.is_barrier_location(c) && !barrier_nearby(
                &barrier_positions,
                c,
            ) {
                barrier_positions.push(c);
                let hit = random.next_chance(BARRIER_NUM, BARRIER_DEN);
                if hit || (rooms.len() > 0 && self.is_room_barrier(c, &rooms[0])) {
                    proof {
                        lemma_barrier_step(t0, self.tiles@, c, rooms@);
                    }
                    self.set(c, Tile::Barrier);
                }
            }
            i = i + 1;
        }
    }
}

/// Appends the tiles of the segment `start..=end` of the ring around room
/// `k` that can hold a barrier.
fn push_ring_side(rooms: &Vec<Room>, k: usize, start: Coord, end: Coord, r: &mut Vec<Coord>)
    requires
        k < rooms@.len(),
        room_ok(rooms@[k as int]),
        around_room(rooms@[k as int], start),
        around_room(rooms@[k as int], end),
        start.x <= end.x,
        start.y <= end.y,
        forall|q: int| 0 <= q < old(r)@.len() ==> ring_candidate(rooms@, #[trigger] old(r)@[q]),
    ensures
        forall|q: int| 0 <= q < final(r)@.len() ==> ring_candidate(rooms@, #[trigger] final(r)@[q]),
        final(r)@ == old(r)@ + side_cells(start, end),
{
    let room = rooms[k];
    proof {
        assert(crate::coord::box_len(start, end) <= 14 * 14) by (nonlinear_arith)
            requires
                0 <= end.x - start.x + 1 <= 14,
                0 <= end.y - start.y + 1 <= 14,
                crate::coord::box_len(start, end) == (end.x - start.x + 1) * (end.y - start.y + 1),
        ;
    }
    let line = Coord::between_inclusive(start, end);
    let mut i: usize = 0;
    while i < line.len()
        invariant
            k < rooms@.len(),
            room == rooms@[k as int],
            around_room(room, start),
            around_room(room, end),
            forall|q: int| 0 <= q < line@.len() ==> in_box(#[trigger] line@[q], start, end),
            forall|q: int| 0 <= q < r@.len() ==> ring_candidate(rooms@, #[trigger] r@[q]),
            i <= line@.len(),
            r@ == old(r)@ + keep_inner(line@.take(i as int)),
        decreases line@.len() - i,
    {
        let c = line[i];
        proof {
            assert(line@.take(i + 1).drop_last() =~= line@.take(i as int));
        }
        if c.is_between_inclusive(coord(1, 1), coord(CHUNK_SIZE_I32 - 2, CHUNK_SIZE_I32 - 2)) {
            proof {
                assert(in_box(line@[i as int], start, end));
                assert(around_room(rooms@[k as int], c));
            }
            r.push(c);
        }
        i = i + 1;
    }
    proof {
        assert(line@.take(i as int) =~= line@);
        assert(line@ =~= box_cells(start, end));
    }
}

/// Whether some position of `positions` is within one step of `c`.
fn barrier_nearby(positions: &Vec<Coord>, c: Coord) -> (r: bool)
    requires
        forall|j: int| 0 <= j < positions@.len() ==> in_chunk(#[trigger] positions@[j]),
        in_chunk(c),
    ensures
        r == exists|j: int| 0 <= j < positions@.len() && manhattan(c, #[trigger] positions@[j]) <= 1,
{
    let mut q: usize = 0;
    while q < positions.len()
        invariant
            q <= positions@.len(),
            forall|j: int| 0 <= j < positions@.len() ==> in_chunk(#[trigger] positions@[j]),
            in_chunk(c),
            forall|j: int| 0 <= j < q ==> manhattan(c, #[trigger] positions@[j]) > 1,
        decreases positions@.len() - q,
    {
        if c.distance(positions[q]) <= 1 {
            return true;
        }
        q = q + 1;
    }
    false
}

/// Barring leaves walls where they were, so doorways stay doorways.
proof fn lemma_barred_walls(t0: Seq<Tile>, t: Seq<Tile>, c: Coord)
    requires
        only_barred(t0, t),
        1 <= c.x <= CHUNK_SIZE_I32 - 2,
        1 <= c.y <= CHUNK_SIZE_I32 - 2,
    ensures
        chokepoint(t, c) == chokepoint(t0, c),
{
    lemma_index_coord(c.top_spec());
    lemma_index_coord(c.bottom_spec());
    lemma_index_coord(c.left_spec());
    lemma_index_coord(c.right_spec());
    let it = tile_index(c.top_spec());
    let ib = tile_index(c.bottom_spec());
    let il = tile_index(c.left_spec());
    let ir = tile_index(c.right_spec());
    assert(t[it] == t0[it] || (t0[it] == Tile::Floor && t[it] == Tile::Barrier));
    assert(t[ib] == t0[ib] || (t0[ib] == Tile::Floor && t[ib] == Tile::Barrier));
    assert(t[il] == t0[il] || (t0[il] == Tile::Floor && t[il] == Tile::Barrier));
    assert(t[ir] == t0[ir] || (t0[ir] == Tile::Floor && t[ir] == Tile::Barrier));
}

/// Barring a floor doorway keeps the facts `add_barriers` promises.
proof fn lemma_barrier_step(t0: Seq<Tile>, t: Seq<Tile>, c: Coord, rooms: Seq<Room>)
    requires
        only_barred(t0, t),
        forall|d: Coord|
            in_chunk(d) && #[trigger] tile_at(t, d) != tile_at(t0, d) ==> chokepoint(t0, d)
                && ring_candidate(rooms, d),
        in_chunk(c),
        tile_at(t, c) == Tile::Floor,
        chokepoint(t, c),
        ring_candidate(rooms, c),
    ensures
        only_barred(t0, t.update(tile_index(c), Tile::Barrier)),
        forall|d: Coord|
            in_chunk(d) && #[trigger] tile_at(t.update(tile_index(c), Tile::Barrier), d) != tile_at(
                t0,
                d,
            ) ==> chokepoint(t0, d) && ring_candidate(rooms, d),
{
    let t1 = t.update(tile_index(c), Tile::Barrier);
    lemma_index_coord(c);
    lemma_index_coord(c.top_spec());
    lemma_index_coord(c.bottom_spec());
    lemma_index_coord(c.left_spec());
    lemma_index_coord(c.right_spec());
    lemma_barred_walls(t0, t, c);
    assert forall|d: Coord| in_chunk(d) && #[trigger] tile_at(t1, d) != tile_at(t0, d) implies chokepoint(
        t0,
        d,
    ) && ring_candidate(rooms, d) by {
        lemma_index_coord(d);
        if d != c {
            if tile_index(d) == tile_index(c) {
                lemma_index_injective(d, c);
            }
            assert(tile_at(t1, d) == tile_at(t, d));
        } else {
            assert(t[tile_index(c)] == t0[tile_index(c)] || t0[tile_index(c)] == Tile::Floor);
        }
    }
    assert forall|i: int| 0 <= i < CHUNK_AREA implies #[trigger] t1[i] == t0[i] || (t0[i] == Tile::Floor
        && t1[i] == Tile::Barrier) by {
        if i == tile_index(c) {
            lemma_coord_index(i);
            assert(t[i] == Tile::Floor);
            assert(t[i] == t0[i] || t0[i] == Tile::Floor);
        }
    }
}


/// Whether `c` is a floor tile that is a one-tile doorway.
pub open spec fn floor_doorway(tiles: Seq<Tile>, c: Coord) -> bool {
    tile_at(tiles, c) == Tile::Floor && chokepoint(tiles, c)
}

/// Whether some tile of the ring around `r` is a barrier.
pub open spec fn ring_barred(tiles: Seq<Tile>, r: Room) -> bool {
    exists|d: Coord| on_ring(r, d) && in_chunk(d) && #[trigger] tile_at(tiles, d) == Tile::Barrier
}

proof fn lemma_keep_inner_sub(cells: Seq<Coord>, q: int)
    requires
        0 <= q < keep_inner(cells).len(),
    ensures
        inner(keep_inner(cells)[q]),
        exists|i: int| 0 <= i < cells.len() && cells[i] == keep_inner(cells)[q],
    decreases cells.len(),
{
    let r = keep_inner(cells.drop_last());
    if q < r.len() {
        lemma_keep_inner_sub(cells.drop_last(), q);
        let i = choose|i: int| 0 <= i < cells.drop_last().len() && cells.drop_last()[i] == r[q];
        assert(cells[i] == r[q]);
    } else {
        assert(keep_inner(cells)[q] == cells.last());
    }
}

proof fn lemma_keep_inner_has(cells: Seq<Coord>, i: int)
    requires
        0 <= i < cells.len(),
        inner(cells[i]),
    ensures
        exists|q: int| 0 <= q < keep_inner(cells).len() && keep_inner(cells)[q] == cells[i],
    decreases cells.len(),
{
    if i < cells.len() - 1 {
        lemma_keep_inner_has(cells.drop_last(), i);
        let q = choose|q: int|
            0 <= q < keep_inner(cells.drop_last()).len() && keep_inner(cells.drop_last())[q] == cells.drop_last()[i];
        assert(keep_inner(cells)[q] == keep_inner(cells.drop_last())[q]);
    } else {
        assert(keep_inner(cells)[keep_inner(cells).len() - 1] == cells[i]);
    }
}

proof fn lemma_box_in(start: Coord, end: Coord, i: int)
    requires
        0 <= i < box_len(start, end),
    ensures
        in_box(box_at(start, end, i), start, end),
{
    let w = end.x - start.x + 1;
    let h = end.y - start.y + 1;
    vstd::arithmetic::div_mod::lemma_fundamental_div_mod(i, w);
    vstd::arithmetic::div_mod::lemma_mod_bound(i, w);
    vstd::arithmetic::div_mod::lemma_div_pos_is_pos(i, w);
    assert(i / w < h) by (nonlinear_arith)
        requires
            i == w * (i / w) + i % w,
            0 <= i % w,
            i < w * h,
            w > 0,
    ;
}

proof fn lemma_box_cover(start: Coord, end: Coord, c: Coord)
    requires
        in_box(c, start, end),
    ensures
        exists|i: int| 0 <= i < box_len(start, end) && box_at(start, end, i) == c,
{
    let w = end.x - start.x + 1;
    let h = end.y - start.y + 1;
    let i = (c.y - start.y) * w + (c.x - start.x);
    crate::coord::lemma_row_index(c.y - start.y, c.x - start.x, w);
    assert(i < w * h) by (nonlinear_arith)
        requires
            i == (c.y - start.y) * w + (c.x - start.x),
            0 <= c.x - start.x < w,
            0 <= c.y - start.y < h,
    ;
    assert(box_at(start, end, i) == c);
}

/// Every cell of the ring list of `r` lies on its ring, inside the chunk.
proof fn lemma_ring_cells_on_ring(r: Room, q: int)
    requires
        room_ok(r),
        0 <= q < ring_cells(r).len(),
    ensures
        on_ring(r, ring_cells(r)[q]),
        inner(ring_cells(r)[q]),
{
    let bl = Coord { x: (r.x - 1) as i32, y: (r.y - 1) as i32 };
    let tr = Coord { x: (r.x + r.width) as i32, y: (r.y + r.height) as i32 };
    let tl = Coord { x: bl.x, y: tr.y };
    let br = Coord { x: tr.x, y: bl.y };
    let (a, b, c, d) = (side_cells(bl, br), side_cells(bl, tl), side_cells(br, tr), side_cells(tl, tr));
    assert(ring_cells(r) == a + b + c + d);
    let x = ring_cells(r)[q];
    if q < a.len() {
        lemma_side_on(bl, br, q);
    } else if q < a.len() + b.len() {
        lemma_side_on(bl, tl, q - a.len());
    } else if q < a.len() + b.len() + c.len() {
        lemma_side_on(br, tr, q - a.len() - b.len());
    } else {
        lemma_side_on(tl, tr, q - a.len() - b.len() - c.len());
    }
}

proof fn lemma_side_on(start: Coord, end: Coord, q: int)
    requires
        0 <= q < side_cells(start, end).len(),
    ensures
        inner(side_cells(start, end)[q]),
        in_box(side_cells(start, end)[q], start, end),
{
    lemma_keep_inner_sub(box_cells(start, end), q);
    let i = choose|i: int| 0 <= i < box_cells(start, end).len() && box_cells(start, end)[i] == side_cells(start, end)[q];
    lemma_box_in(start, end, i);
}

/// Every inner tile on the ring of `r` is in its ring list.
proof fn lemma_ring_cells_cover(r: Room, c: Coord)
    requires
        room_ok(r),
        on_ring(r, c),
        inner(c),
    ensures
        exists|q: int| 0 <= q < ring_cells(r).len() && ring_cells(r)[q] == c,
{
    let bl = Coord { x: (r.x - 1) as i32, y: (r.y - 1) as i32 };
    let tr = Coord { x: (r.x + r.width) as i32, y: (r.y + r.height) as i32 };
    let tl = Coord { x: bl.x, y: tr.y };
    let br = Coord { x: tr.x, y: bl.y };
    let (a, b, cc, d) = (side_cells(bl, br), side_cells(bl, tl), side_cells(br, tr), side_cells(tl, tr));
    let all = ring_cells(r);
    assert(all == a + b + cc + d);
    if c.y == bl.y {
        lemma_side_has(bl, br, c);
        let q = choose|q: int| 0 <= q < a.len() && a[q] == c;
        assert(all[q] == c);
    } else if c.x == bl.x {
        lemma_side_has(bl, tl, c);
        let q = choose|q: int| 0 <= q < b.len() && b[q] == c;
        assert(all[a.len() + q] == c);
    } else if c.x == tr.x {
        lemma_side_has(br, tr, c);
        let q = choose|q: int| 0 <= q < cc.len() && cc[q] == c;
        assert(all[a.len() + b.len() + q] == c);
    } else {
        lemma_side_has(tl, tr, c);
        let q = choose|q: int| 0 <= q < d.len() && d[q] == c;
        assert(all[a.len() + b.len() + cc.len() + q] == c);
    }
}

proof fn lemma_side_has(start: Coord, end: Coord, c: Coord)
    requires
        in_box(c, start, end),
        inner(c),
    ensures
        exists|q: int| 0 <= q < side_cells(start, end).len() && side_cells(start, end)[q] == c,
{
    assert(side_cells(start, end) == keep_inner(box_cells(start, end)));
    lemma_box_cover(start, end, c);
    let i = choose|i: int| 0 <= i < box_len(start, end) && box_at(start, end, i) == c;
    assert(box_cells(start, end)[i] == c);
    lemma_keep_inner_has(box_cells(start, end), i);
}

/// The candidates of `rooms` start with the ring list of the first room.
proof fn lemma_candidates_start(rooms: Seq<Room>)
    requires
        rooms.len() > 0,
    ensures
        ring_cells(rooms[0]).len() <= candidates(rooms).len(),
        forall|q: int| 0 <= q < ring_cells(rooms[0]).len() ==> #[trigger] candidates(rooms)[q] == ring_cells(rooms[0])[q],
    decreases rooms.len(),
{
    if rooms.len() == 1 {
        assert(candidates(rooms.drop_last()) == Seq::<Coord>::empty());
        assert(candidates(rooms) =~= ring_cells(rooms[0]));
    } else {
        lemma_candidates_start(rooms.drop_last());
        assert(rooms.drop_last()[0] == rooms[0]);
    }
}

/// What one step of barrier placement does to the grid.
proof fn lemma_bar_step(g: (Seq<Tile>, Seq<Coord>, u32), rooms: Seq<Room>, c: Coord)
    requires
        in_chunk(c),
        g.0.len() == CHUNK_AREA,
    ensures
        bar_step(g, rooms, c).0.len() == CHUNK_AREA,
        bar_step(g, rooms, c).0 == g.0 || bar_step(g, rooms, c).0 == g.0.update(tile_index(c), Tile::Barrier),
        !floor_doorway(g.0, c) ==> bar_step(g, rooms, c) == g,
        g.1.len() == 0 && floor_doorway(g.0, c) && rooms.len() > 0 && around_room(rooms[0], c) ==> bar_step(
            g,
            rooms,
            c,
        ).0 == g.0.update(tile_index(c), Tile::Barrier) && bar_step(g, rooms, c).1.len() == 1,
{
    lemma_index_coord(c);
    if g.1.len() == 0 {
        assert(!near_any(g.1, c));
    }
}

/// Before the first doorway of the first room's ring is met, nothing is
/// chosen; when it is met, it is barred.
proof fn lemma_bar_fold_gate(tiles: Seq<Tile>, s: u32, rooms: Seq<Room>, cands: Seq<Coord>, n: int)
    requires
        tiles.len() == CHUNK_AREA,
        rooms.len() > 0,
        room_ok(rooms[0]),
        0 <= n <= ring_cells(rooms[0]).len(),
        ring_cells(rooms[0]).len() <= cands.len(),
        forall|q: int| 0 <= q < ring_cells(rooms[0]).len() ==> #[trigger] cands[q] == ring_cells(rooms[0])[q],
    ensures
        bar_fold(tiles, seq![], s, rooms, cands, n).0.len() == CHUNK_AREA,
        ring_barred(bar_fold(tiles, seq![], s, rooms, cands, n).0, rooms[0]) || {
            &&& bar_fold(tiles, seq![], s, rooms, cands, n).0 == tiles
            &&& bar_fold(tiles, seq![], s, rooms, cands, n).1.len() == 0
            &&& forall|q: int| 0 <= q < n ==> !floor_doorway(tiles, #[trigger] ring_cells(rooms[0])[q])
        },
    decreases n,
{
    if n > 0 {
        lemma_bar_fold_gate(tiles, s, rooms, cands, n - 1);
        let g = bar_fold(tiles, seq![], s, rooms, cands, n - 1);
        let c = cands[n - 1];
        let t1 = bar_fold(tiles, seq![], s, rooms, cands, n).0;
        assert(t1 == bar_step(g, rooms, c).0);
        lemma_ring_cells_on_ring(rooms[0], n - 1);
        lemma_bar_step(g, rooms, c);
        if ring_barred(g.0, rooms[0]) {
            lemma_barred_kept(g.0, t1, rooms[0], c);
        } else if floor_doorway(tiles, c) {
            lemma_index_coord(c);
            assert(tile_at(t1, c) == Tile::Barrier);
        }
    }
}

/// A barrier stays when tiles are only barred further.
proof fn lemma_barred_kept(t: Seq<Tile>, t1: Seq<Tile>, r: Room, c: Coord)
    requires
        ring_barred(t, r),
        t.len() == CHUNK_AREA,
        t1 == t || (in_chunk(c) && t1 == t.update(tile_index(c), Tile::Barrier)),
    ensures
        ring_barred(t1, r),
{
    let d = choose|d: Coord| on_ring(r, d) && in_chunk(d) && #[trigger] tile_at(t, d) == Tile::Barrier;
    lemma_index_coord(d);
    assert(tile_at(t1, d) == Tile::Barrier);
}

proof fn lemma_bar_fold_keeps(tiles: Seq<Tile>, s: u32, rooms: Seq<Room>, cands: Seq<Coord>, n: int, m: int)
    requires
        tiles.len() == CHUNK_AREA,
        rooms.len() > 0,
        0 <= n <= m <= cands.len(),
        forall|q: int| 0 <= q < cands.len() ==> in_chunk(#[trigger] cands[q]),
        bar_fold(tiles, seq![], s, rooms, cands, n).0.len() == CHUNK_AREA,
        ring_barred(bar_fold(tiles, seq![], s, rooms, cands, n).0, rooms[0]),
    ensures
        ring_barred(bar_fold(tiles, seq![], s, rooms, cands, m).0, rooms[0]),
        bar_fold(tiles, seq![], s, rooms, cands, m).0.len() == CHUNK_AREA,
    decreases m - n,
{
    if n < m {
        lemma_bar_fold_keeps(tiles, s, rooms, cands, n, m - 1);
        let g = bar_fold(tiles, seq![], s, rooms, cands, m - 1);
        assert(bar_fold(tiles, seq![], s, rooms, cands, m) == bar_step(g, rooms, cands[m - 1]));
        lemma_bar_step(g, rooms, cands[m - 1]);
        lemma_barred_kept(g.0, bar_fold(tiles, seq![], s, rooms, cands, m).0, rooms[0], cands[m - 1]);
    }
}

/// The first room is gated: when a tile of the ring around it is a floor
/// doorway (a floor tile walled on both sides along one axis and open on
/// both sides along the other, with its four neighbours in the chunk),
/// barrier placement leaves a barrier on that ring.
pub proof fn lemma_first_room_gated(tiles: Seq<Tile>, s: u32, rooms: Seq<Room>, c: Coord)
    requires
        tiles.len() == CHUNK_AREA,
        rooms.len() > 0,
        forall|k: int| 0 <= k < rooms.len() ==> room_ok(#[trigger] rooms[k]),
        on_ring(rooms[0], c),
        inner(c),
        floor_doorway(tiles, c),
    ensures
        ring_barred(barred(tiles, s, rooms).0, rooms[0]),
{
    let ring = ring_cells(rooms[0]);
    let cands = candidates(rooms);
    assert(room_ok(rooms[0]));
    lemma_candidates_start(rooms);
    lemma_ring_cells_cover(rooms[0], c);
    let q = choose|q: int| 0 <= q < ring.len() && ring[q] == c;
    lemma_bar_fold_gate(tiles, s, rooms, cands, ring.len() as int);
    assert(!ring_barred(bar_fold(tiles, seq![], s, rooms, cands, ring.len() as int).0, rooms[0]) ==> !floor_doorway(
        tiles,
        ring[q],
    ));
    assert forall|k: int| 0 <= k < cands.len() implies in_chunk(#[trigger] cands[k]) by {
        lemma_candidates_inner(rooms, k);
    }
    lemma_bar_fold_keeps(tiles, s, rooms, cands, ring.len() as int, cands.len() as int);
}

proof fn lemma_candidates_inner(rooms: Seq<Room>, k: int)
    requires
        forall|j: int| 0 <= j < rooms.len() ==> room_ok(#[trigger] rooms[j]),
        0 <= k < candidates(rooms).len(),
    ensures
        inner(candidates(rooms)[k]),
    decreases rooms.len(),
{
    let prev = candidates(rooms.drop_last());
    if k < prev.len() {
        lemma_candidates_inner(rooms.drop_last(), k);
    } else {
        assert(room_ok(rooms.last()));
        lemma_ring_cells_on_ring(rooms.last(), k - prev.len());
    }
}


/// A barrier placed by the scan stays until its end.
proof fn lemma_barrier_stays(tiles: Seq<Tile>, s: u32, rooms: Seq<Room>, cands: Seq<Coord>, n: int, m: int, c: Coord)
    requires
        0 <= n <= m <= cands.len(),
        in_chunk(c),
        forall|q: int| 0 <= q < cands.len() ==> in_chunk(#[trigger] cands[q]),
        bar_fold(tiles, seq![], s, rooms, cands, n).0.len() == CHUNK_AREA,
        tile_at(bar_fold(tiles, seq![], s, rooms, cands, n).0, c) == Tile::Barrier,
    ensures
        bar_fold(tiles, seq![], s, rooms, cands, m).0.len() == CHUNK_AREA,
        tile_at(bar_fold(tiles, seq![], s, rooms, cands, m).0, c) == Tile::Barrier,
    decreases m - n,
{
    if n < m {
        lemma_barrier_stays(tiles, s, rooms, cands, n, m - 1, c);
        let g = bar_fold(tiles, seq![], s, rooms, cands, m - 1);
        let d = cands[m - 1];
        assert(bar_fold(tiles, seq![], s, rooms, cands, m) == bar_step(g, rooms, d));
        lemma_bar_step(g, rooms, d);
        lemma_index_coord(c);
        lemma_index_coord(d);
    }
}

/// Every doorway of the ring around the first room that the scan accepts
/// (a floor doorway with no position chosen earlier within one step) is
/// barred, whatever the random draws: in chunk (0, 0) the first room is
/// the starting room.
pub proof fn lemma_first_room_doorways_barred(tiles: Seq<Tile>, s: u32, rooms: Seq<Room>, n: int)
    requires
        tiles.len() == CHUNK_AREA,
        rooms.len() > 0,
        forall|k: int| 0 <= k < rooms.len() ==> room_ok(#[trigger] rooms[k]),
        0 <= n < candidates(rooms).len(),
        floor_doorway(bar_fold(tiles, seq![], s, rooms, candidates(rooms), n).0, candidates(rooms)[n]),
        !near_any(bar_fold(tiles, seq![], s, rooms, candidates(rooms), n).1, candidates(rooms)[n]),
        around_room(rooms[0], candidates(rooms)[n]),
    ensures
        tile_at(barred(tiles, s, rooms).0, candidates(rooms)[n]) == Tile::Barrier,
{
    let cands = candidates(rooms);
    let c = cands[n];
    assert forall|q: int| 0 <= q < cands.len() implies in_chunk(#[trigger] cands[q]) by {
        lemma_candidates_inner(rooms, q);
    }
    lemma_bar_fold_len_all(tiles, s, rooms, cands, n);
    let g = bar_fold(tiles, seq![], s, rooms, cands, n);
    assert(bar_fold(tiles, seq![], s, rooms, cands, n + 1) == bar_step(g, rooms, c));
    lemma_index_coord(c);
    assert(bar_step(g, rooms, c).0 == g.0.update(tile_index(c), Tile::Barrier));
    assert(tile_at(bar_fold(tiles, seq![], s, rooms, cands, n + 1).0, c) == Tile::Barrier);
    lemma_barrier_stays(tiles, s, rooms, cands, n + 1, cands.len() as int, c);
}

proof fn lemma_bar_fold_len_all(tiles: Seq<Tile>, s: u32, rooms: Seq<Room>, cands: Seq<Coord>, n: int)
    requires
        tiles.len() == CHUNK_AREA,
        0 <= n <= cands.len(),
        forall|q: int| 0 <= q < cands.len() ==> in_chunk(#[trigger] cands[q]),
    ensures
        bar_fold(tiles, seq![], s, rooms, cands, n).0.len() == CHUNK_AREA,
    decreases n,
{
    if n > 0 {
        lemma_bar_fold_len_all(tiles, s, rooms, cands, n - 1);
        lemma_bar_step(bar_fold(tiles, seq![], s, rooms, cands, n - 1), rooms, cands[n - 1]);
    }
}

} // verus!
