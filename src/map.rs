//! The infinite world: chunks created on first touch and kept for good.
use vstd::prelude::*;
use crate::chunk::{
    chunk_coord_ok, in_chunk, lemma_index_coord, tile_at, tile_index, Chest, Chunk, CHUNK_SIZE_I32,
};
use crate::coord::{box_at, box_len, coord, fits_i32, in_box, Coord};
use crate::carving::CarveError;
use crate::features::features;
use crate::generation::chunk_spec;
use crate::outside::route_of;
use crate::geometry::{rect_contains, Point, Rect, POINT_SCALE};

verus! {

/// What a grid cell holds.
#[derive(Copy, Clone, Debug, PartialEq, Eq, Structural)]
pub enum Tile {
    Floor,
    Wall,
    Barrier,
}

impl Tile {
    /// Only floor can be walked on.
    pub fn is_walkable(&self) -> (r: bool)
        ensures
            r == (*self == Tile::Floor),
    {
        match *self {
            Tile::Floor => true,
            Tile::Wall | Tile::Barrier => false,
        }
    }
}


/// Chunk lookups remembered by a storage.
pub const CHUNK_LOOKUP_CACHE_SIZE: usize = 2;

/// The chunk holding world coordinate `c`: world (0, 0) sits at the
/// center of chunk (0, 0).
pub open spec fn world_chunk(c: Coord) -> Coord {
    Coord {
        x: ((c.x + CHUNK_SIZE_I32 / 2) / CHUNK_SIZE_I32 as int) as i32,
        y: ((c.y + CHUNK_SIZE_I32 / 2) / CHUNK_SIZE_I32 as int) as i32,
    }
}

/// The local coordinate of world coordinate `c` inside its chunk.
pub open spec fn world_local(c: Coord) -> Coord {
    Coord {
        x: ((c.x + CHUNK_SIZE_I32 / 2) % CHUNK_SIZE_I32 as int) as i32,
        y: ((c.y + CHUNK_SIZE_I32 / 2) % CHUNK_SIZE_I32 as int) as i32,
    }
}

/// The world coordinate at local coordinate `l` of chunk `k`.
pub open spec fn world_of(k: Coord, l: Coord) -> (int, int) {
    (
        k.x * CHUNK_SIZE_I32 + l.x - CHUNK_SIZE_I32 / 2,
        k.y * CHUNK_SIZE_I32 + l.y - CHUNK_SIZE_I32 / 2,
    )
}

/// Every world coordinate is recovered from its chunk and local
/// coordinate, the local coordinate lies inside the chunk, and the chunk
/// coordinate is in the range chunks are kept for.
pub proof fn lemma_world_round_trip(c: Coord)
    ensures
        in_chunk(world_local(c)),
        chunk_coord_ok(world_chunk(c)),
        world_of(world_chunk(c), world_local(c)) == (c.x as int, c.y as int),
{
    lemma_split(c.x + 25);
    lemma_split(c.y + 25);
}

/// Every chunk and local coordinate are recovered from the world
/// coordinate they give.
pub proof fn lemma_parts_round_trip(k: Coord, l: Coord)
    requires
        in_chunk(l),
        fits_i32(world_of(k, l).0),
        fits_i32(world_of(k, l).1),
    ensures
        world_chunk(Coord { x: world_of(k, l).0 as i32, y: world_of(k, l).1 as i32 }) == k,
        world_local(Coord { x: world_of(k, l).0 as i32, y: world_of(k, l).1 as i32 }) == l,
{
    vstd::arithmetic::div_mod::lemma_fundamental_div_mod_converse(k.x * 50 + l.x, 50, k.x as int, l.x as int);
    vstd::arithmetic::div_mod::lemma_fundamental_div_mod_converse(k.y * 50 + l.y, 50, k.y as int, l.y as int);
}

/// Two world coordinates with the same chunk and local coordinate are equal.
pub proof fn lemma_world_injective(c: Coord, d: Coord)
    requires
        world_chunk(c) == world_chunk(d),
        world_local(c) == world_local(d),
    ensures
        c == d,
{
    lemma_world_round_trip(c);
    lemma_world_round_trip(d);
}

proof fn lemma_split(v: int)
    requires
        i32::MIN + 25 <= v <= i32::MAX + 25,
    ensures
        0 <= v % 50 < 50,
        v == (v / 50) * 50 + v % 50,
        -50_000_000 <= v / 50 <= 50_000_000,
{
    vstd::arithmetic::div_mod::lemma_fundamental_div_mod(v, 50);
    vstd::arithmetic::div_mod::lemma_mod_bound(v, 50);
    assert(-50_000_000 <= v / 50 <= 50_000_000) by (nonlinear_arith)
        requires
            v == 50 * (v / 50) + v % 50,
            0 <= v % 50 < 50,
            i32::MIN + 25 <= v <= i32::MAX + 25,
    ;
}

/// The chunk holding a world coordinate and the local coordinate inside it.
pub fn world_to_chunk(c: Coord) -> (r: (Coord, Coord))
    ensures
        r.0 == world_chunk(c),
        r.1 == world_local(c),
        in_chunk(r.1),
        chunk_coord_ok(r.0),
{
    proof {
        lemma_world_round_trip(c);
    }
    let x = c.x as i64 + (CHUNK_SIZE_I32 / 2) as i64;
    let y = c.y as i64 + (CHUNK_SIZE_I32 / 2) as i64;
    let kx = x.checked_div_euclid(CHUNK_SIZE_I32 as i64).unwrap();
    let ky = y.checked_div_euclid(CHUNK_SIZE_I32 as i64).unwrap();
    let lx = x.checked_rem_euclid(CHUNK_SIZE_I32 as i64).unwrap();
    let ly = y.checked_rem_euclid(CHUNK_SIZE_I32 as i64).unwrap();
    (coord(kx as i32, ky as i32), coord(lx as i32, ly as i32))
}

/// The tile that generation puts at world coordinate `c` of the world
/// seeded `seed` (wall where generation fails).
pub open spec fn generated_tile(seed: u32, c: Coord) -> Tile {
    match chunk_spec(world_chunk(c), seed) {
        Some(g) => tile_at(g.0, world_local(c)),
        None => Tile::Wall,
    }
}

/// Whether some chunk of `chunks` sits at `k`.
pub open spec fn holds(chunks: Seq<Chunk>, k: Coord) -> bool {
    exists|j: int| 0 <= j < chunks.len() && (#[trigger] chunks[j]).coord == k
}

/// The position in `chunks` of the chunk at `k`.
pub open spec fn index_of(chunks: Seq<Chunk>, k: Coord) -> int {
    choose|j: int| 0 <= j < chunks.len() && (#[trigger] chunks[j]).coord == k
}

/// The tile at world coordinate `c`, read from the chunks held.
pub open spec fn world_tile(chunks: Seq<Chunk>, c: Coord) -> Tile {
    tile_at(chunks[index_of(chunks, world_chunk(c))].tiles@, world_local(c))
}

/// No two chunks at one coordinate.
pub open spec fn coords_unique(chunks: Seq<Chunk>) -> bool {
    forall|i: int, j: int|
        0 <= i < chunks.len() && 0 <= j < chunks.len() && i != j ==> (#[trigger] chunks[i]).coord
            != (#[trigger] chunks[j]).coord
}

/// `after` keeps the chunks of `before` at their positions, unchanged.
pub open spec fn extends(before: Seq<Chunk>, after: Seq<Chunk>) -> bool {
    &&& before.len() <= after.len()
    &&& forall|j: int| 0 <= j < before.len() ==> #[trigger] after[j] == before[j]
}

/// With unique coordinates, the chunk at a coordinate is found where it is.
pub proof fn lemma_index_of(chunks: Seq<Chunk>, j: int)
    requires
        coords_unique(chunks),
        0 <= j < chunks.len(),
    ensures
        holds(chunks, chunks[j].coord),
        index_of(chunks, chunks[j].coord) == j,
{
    assert(holds(chunks, chunks[j].coord));
}

/// Chunks generated on first touch, with the last few lookups remembered.
pub struct ChunkStorage {
    pub seed: u32,
    pub chunks: Vec<Chunk>,
    pub chunk_lookup_cache: Vec<(Coord, usize)>,
    /// Position in `chunks` of the chunk at each coordinate, by `chunk_key`.
    pub index: std::collections::HashMap<u64, usize>,
    /// The tiles written since generation, as chunk and local coordinates.
    pub written: Ghost<Set<(Coord, Coord)>>,
}

/// The grid that generation makes for chunk `k` of the world seeded `seed`
/// (empty where generation fails).
pub open spec fn generated_grid(k: Coord, seed: u32) -> Seq<Tile> {
    match chunk_spec(k, seed) {
        Some(g) => g.0,
        None => Seq::empty(),
    }
}

/// A chunk coordinate packed into one word: `x` in the high half, `y` in
/// the low half, each offset to be non-negative.
pub open spec fn chunk_key(k: Coord) -> u64 {
    ((k.x + 0x8000_0000) * 0x1_0000_0000 + (k.y + 0x8000_0000)) as u64
}

proof fn lemma_chunk_key(k: Coord)
    ensures
        0 <= (k.x + 0x8000_0000) * 0x1_0000_0000 + (k.y + 0x8000_0000) <= u64::MAX,
        chunk_key(k) / 0x1_0000_0000 == k.x + 0x8000_0000,
        chunk_key(k) % 0x1_0000_0000 == k.y + 0x8000_0000,
{
    let hi = k.x + 0x8000_0000;
    let lo = k.y + 0x8000_0000;
    assert(0 <= hi * 0x1_0000_0000 + lo <= u64::MAX) by (nonlinear_arith)
        requires
            0 <= hi < 0x1_0000_0000,
            0 <= lo < 0x1_0000_0000,
    ;
    vstd::arithmetic::div_mod::lemma_fundamental_div_mod_converse(hi * 0x1_0000_0000 + lo, 0x1_0000_0000, hi, lo);
}

/// Distinct chunk coordinates have distinct keys.
proof fn lemma_chunk_key_injective(a: Coord, b: Coord)
    requires
        chunk_key(a) == chunk_key(b),
    ensures
        a == b,
{
    lemma_chunk_key(a);
    lemma_chunk_key(b);
}

/// The key of a chunk coordinate.
fn key_of(k: Coord) -> (r: u64)
    ensures
        r == chunk_key(k),
{
    proof {
        lemma_chunk_key(k);
    }
    ((k.x as i64 + 0x8000_0000) as u64) * 0x1_0000_0000 + ((k.y as i64 + 0x8000_0000) as u64)
}

/// `index` maps the key of each chunk of `chunks` to its position, and
/// nothing else.
pub open spec fn indexes(index: Map<u64, usize>, chunks: Seq<Chunk>) -> bool {
    &&& forall|key: u64|
        #[trigger] index.contains_key(key) ==> index[key] < chunks.len() && chunk_key(chunks[index[key] as int].coord)
            == key
    &&& forall|j: int| 0 <= j < chunks.len() ==> index.contains_key(chunk_key(#[trigger] chunks[j].coord))
}

/// Whether chunk `ch` is as generation made it for the world seeded `seed`:
/// the same features, and the same tile wherever nothing was written.
pub open spec fn as_generated(ch: Chunk, seed: u32, written: Set<(Coord, Coord)>) -> bool {
    match chunk_spec(ch.coord, seed) {
        Some(g) => {
            &&& features(ch) == g.1
            &&& forall|l: Coord|
                in_chunk(l) && !written.contains((ch.coord, l)) ==> #[trigger] tile_at(ch.tiles@, l) == tile_at(
                    g.0,
                    l,
                )
        },
        None => false,
    }
}

impl ChunkStorage {
    /// Every chunk well formed and as generated but for the tiles written,
    /// one per coordinate, and every remembered lookup pointing at the chunk
    /// it names.
    pub open spec fn wf(&self) -> bool {
        &&& forall|j: int| 0 <= j < self.chunks@.len() ==> (#[trigger] self.chunks@[j]).wf()
        &&& forall|j: int| 0 <= j < self.chunks@.len() ==> as_generated(#[trigger] self.chunks@[j], self.seed, self.written@)
        &&& coords_unique(self.chunks@)
        &&& indexes(self.index@, self.chunks@)
        &&& self.chunk_lookup_cache@.len() <= CHUNK_LOOKUP_CACHE_SIZE
        &&& forall|q: int|
            0 <= q < self.chunk_lookup_cache@.len() ==> {
                &&& (#[trigger] self.chunk_lookup_cache@[q]).1 < self.chunks@.len()
                &&& self.chunks@[self.chunk_lookup_cache@[q].1 as int].coord
                    == self.chunk_lookup_cache@[q].0
            }
    }

    /// An empty storage for the world seeded `seed`.
    pub fn new(seed: u32) -> (r: Self)
        ensures
            r.wf(),
            r.seed == seed,
            r.chunks@.len() == 0,
            r.written@ == Set::<(Coord, Coord)>::empty(),
    {
        Self {
            seed,
            chunks: Vec::new(),
            chunk_lookup_cache: Vec::new(),
            index: std::collections::HashMap::new(),
            written: Ghost(Set::empty()),
        }
    }

    /// Position of the chunk at `c`, generating it on first touch. A chunk
    /// already held is found and left as it is.
    pub fn lookup(&mut self, c: Coord) -> (r: Result<usize, CarveError>)
        requires
            old(self).wf(),
            chunk_coord_ok(c),
        ensures
            r is Ok,
            final(self).wf(),
            final(self).seed == old(self).seed,
            final(self).written == old(self).written,
            extends(old(self).chunks@, final(self).chunks@),
            r matches Ok(i) ==> i < final(self).chunks@.len() && final(self).chunks@[i as int].coord == c,
            holds(old(self).chunks@, c) ==> r == Ok::<usize, CarveError>(
                index_of(old(self).chunks@, c) as usize,
            ) && final(self).chunks@ == old(self).chunks@,
            r is Err ==> final(self).chunks@ == old(self).chunks@,
            !holds(old(self).chunks@, c) ==> (r is Ok <==> chunk_spec(c, old(self).seed) is Some),
            r matches Ok(i) ==> !holds(old(self).chunks@, c) ==> final(self).chunks@.len() == old(
                self,
            ).chunks@.len() + 1 && i == old(self).chunks@.len(),
            r matches Ok(i) ==> !holds(old(self).chunks@, c) ==> chunk_spec(c, old(self).seed) == Some(
                (final(self).chunks@[i as int].tiles@, features(final(self).chunks@[i as int])),
            ),
    {
        let mut q: usize = 0;
        while q < self.chunk_lookup_cache.len()
            invariant
                self.wf(),
                q <= self.chunk_lookup_cache@.len(),
            decreases self.chunk_lookup_cache@.len() - q,
        {
            let (cc, i) = self.chunk_lookup_cache[q];
            if cc.x == c.x && cc.y == c.y {
                proof {
                    assert(self.chunk_lookup_cache@[q as int].1 < self.chunks@.len());
                    lemma_index_of(self.chunks@, i as int);
                }
                return Ok(i);
            }
            q = q + 1;
        }
        let found = self.find_chunk(c);
        let index = match found {
            Some(i) => {
                proof {
                    lemma_index_of(self.chunks@, i as int);
                }
                i
            },
            None => {
                proof {
                    if holds(self.chunks@, c) {
                        let m = choose|m: int| 0 <= m < self.chunks@.len() && (#[trigger] self.chunks@[m]).coord == c;
                        assert(self.chunks@[m].coord != c);
                    }
                }
                let chunk = match Chunk::new(c, self.seed) {
                    Ok(chunk) => chunk,
                    Err(e) => {
                        return Err(e);
                    },
                };
                let ghost before = self.chunks@;
                let key = key_of(c);
                self.chunks.push(chunk);
                let ghost index_before = self.index@;
                self.index.insert(key, self.chunks.len() - 1);
                proof {
                    lemma_index_update(index_before, self.index@, before, self.chunks@, c);
                    assert forall|m: int, n: int|
                        0 <= m < self.chunks@.len() && 0 <= n < self.chunks@.len() && m != n implies (
                        #[trigger] self.chunks@[m]).coord != (#[trigger] self.chunks@[n]).coord by {
                        if m < before.len() && n < before.len() {
                            assert(before[m] == self.chunks@[m] && before[n] == self.chunks@[n]);
                        } else if m < before.len() {
                            assert(before[m] == self.chunks@[m]);
                            assert(before[m].coord != c);
                        } else {
                            assert(before[n] == self.chunks@[n]);
                            assert(before[n].coord != c);
                        }
                    }
                    assert forall|q: int| 0 <= q < self.chunk_lookup_cache@.len() implies {
                        &&& (#[trigger] self.chunk_lookup_cache@[q]).1 < self.chunks@.len()
                        &&& self.chunks@[self.chunk_lookup_cache@[q].1 as int].coord
                            == self.chunk_lookup_cache@[q].0
                    } by {
                        assert(self.chunks@[self.chunk_lookup_cache@[q].1 as int] == before[self.chunk_lookup_cache@[q].1 as int]);
                    }
                    if holds(before, c) {
                        let m = choose|m: int| 0 <= m < before.len() && (#[trigger] before[m]).coord == c;
                        assert(self.chunks@[m] == before[m]);
                    }
                }
                self.chunks.len() - 1
            },
        };
        let mut cache: Vec<(Coord, usize)> = Vec::new();
        cache.push((c, index));
        if self.chunk_lookup_cache.len() > 0 {
            cache.push(self.chunk_lookup_cache[0]);
        }
        self.chunk_lookup_cache = cache;
        Ok(index)
    }

    /// Position of the chunk held at `c`, if any.
    fn find_chunk(&self, c: Coord) -> (r: Option<usize>)
        requires
            self.wf(),
        ensures
            r matches Some(i) ==> i < self.chunks@.len() && self.chunks@[i as int].coord == c,
            r is None ==> forall|m: int| 0 <= m < self.chunks@.len() ==> (#[trigger] self.chunks@[m]).coord != c,
    {
        broadcast use vstd::std_specs::hash::group_hash_axioms;
        let key = key_of(c);
        match self.index.get(&key) {
            Some(i) => {
                proof {
                    lemma_chunk_key_injective(self.chunks@[*i as int].coord, c);
                }
                Some(*i)
            },
            None => {
                proof {
                    assert forall|m: int| 0 <= m < self.chunks@.len() implies (#[trigger] self.chunks@[m]).coord != c by {
                        assert(self.index@.contains_key(chunk_key(self.chunks@[m].coord)));
                    }
                }
                None
            },
        }
    }

    /// The chunk at position `i`.
    pub fn chunk(&self, i: usize) -> (r: &Chunk)
        requires
            i < self.chunks@.len(),
        ensures
            *r == self.chunks@[i as int],
    {
        &self.chunks[i]
    }

    /// Replaces the tile at local coordinate `l` of the chunk at position `i`.
    pub fn set_tile(&mut self, i: usize, l: Coord, tile: Tile)
        requires
            old(self).wf(),
            i < old(self).chunks@.len(),
            in_chunk(l),
        ensures
            final(self).wf(),
            final(self).seed == old(self).seed,
            final(self).chunks@.len() == old(self).chunks@.len(),
            forall|j: int| 0 <= j < old(self).chunks@.len() && j != i ==> #[trigger] final(self).chunks@[j] == old(self).chunks@[j],
            final(self).chunks@[i as int].coord == old(self).chunks@[i as int].coord,
            final(self).chunks@[i as int].tiles@ == old(self).chunks@[i as int].tiles@.update(tile_index(l), tile),
            features(final(self).chunks@[i as int]) == features(old(self).chunks@[i as int]),
            final(self).written@ == old(self).written@.insert((old(self).chunks@[i as int].coord, l)),
    {
        let ghost k = self.chunks@[i as int].coord;
        let mut chunks: Vec<Chunk> = Vec::new();
        std::mem::swap(&mut chunks, &mut self.chunks);
        let mut chunk = chunks.remove(i);
        chunk.set(l, tile);
        chunks.insert(i, chunk);
        self.chunks = chunks;
        self.written = Ghost(self.written@.insert((k, l)));
        proof {
            assert forall|j: int| 0 <= j < self.chunks@.len() implies as_generated(
                #[trigger] self.chunks@[j],
                self.seed,
                self.written@,
            ) by {
                let ch = self.chunks@[j];
                let o = old(self).chunks@[j];
                assert(as_generated(o, self.seed, old(self).written@));
                if j == i {
                    assert forall|m: Coord| in_chunk(m) && !self.written@.contains((ch.coord, m)) implies #[trigger] tile_at(
                        ch.tiles@,
                        m,
                    ) == tile_at(generated_grid(ch.coord, self.seed), m) by {
                        lemma_index_coord(m);
                        lemma_index_coord(l);
                        if tile_index(m) == tile_index(l) {
                            crate::chunk::lemma_index_injective(m, l);
                        }
                        assert(tile_at(o.tiles@, m) == tile_at(generated_grid(o.coord, self.seed), m));
                    }
                }
            }
            assert forall|q: int| 0 <= q < self.chunk_lookup_cache@.len() implies {
                &&& (#[trigger] self.chunk_lookup_cache@[q]).1 < self.chunks@.len()
                &&& self.chunks@[self.chunk_lookup_cache@[q].1 as int].coord
                    == self.chunk_lookup_cache@[q].0
            } by {
                let k = self.chunk_lookup_cache@[q].1 as int;
                assert(self.chunks@[k].coord == old(self).chunks@[k].coord);
            }
            assert forall|m: int, n: int|
                0 <= m < self.chunks@.len() && 0 <= n < self.chunks@.len() && m != n implies (
                #[trigger] self.chunks@[m]).coord != (#[trigger] self.chunks@[n]).coord by {
                assert(self.chunks@[m].coord == old(self).chunks@[m].coord);
                assert(self.chunks@[n].coord == old(self).chunks@[n].coord);
            }
        }
    }
}


proof fn lemma_index_update(
    i0: Map<u64, usize>,
    i1: Map<u64, usize>,
    before: Seq<Chunk>,
    after: Seq<Chunk>,
    c: Coord,
)
    requires
        indexes(i0, before),
        i1 == i0.insert(chunk_key(c), before.len() as usize),
        before.len() < usize::MAX,
        after.len() == before.len() + 1,
        forall|j: int| 0 <= j < before.len() ==> #[trigger] after[j] == before[j],
        after[before.len() as int].coord == c,
        forall|j: int| 0 <= j < before.len() ==> (#[trigger] before[j]).coord != c,
    ensures
        indexes(i1, after),
{
    assert forall|key: u64| #[trigger] i1.contains_key(key) implies i1[key] < after.len() && chunk_key(
        after[i1[key] as int].coord,
    ) == key by {
        if key != chunk_key(c) {
            assert(after[i0[key] as int] == before[i0[key] as int]);
        }
    }
    assert forall|j: int| 0 <= j < after.len() implies i1.contains_key(chunk_key(#[trigger] after[j].coord)) by {
        if j < before.len() {
            assert(after[j] == before[j]);
            assert(i0.contains_key(chunk_key(before[j].coord)));
        }
    }
}

/// Lazy permanence across any run of lookups: adding chunks twice adds
/// chunks, so every chunk held stays held, unchanged, at its place.
pub proof fn lemma_extends_trans(a: Seq<Chunk>, b: Seq<Chunk>, c: Seq<Chunk>)
    requires
        extends(a, b),
        extends(b, c),
    ensures
        extends(a, c),
{
    assert forall|j: int| 0 <= j < a.len() implies #[trigger] c[j] == a[j] by {
        assert(b[j] == a[j]);
    }
}

/// A chunk held before stays held, at the same place, when chunks are only
/// added.
pub proof fn lemma_extends_keeps(before: Seq<Chunk>, after: Seq<Chunk>, k: Coord)
    requires
        extends(before, after),
        coords_unique(after),
        holds(before, k),
    ensures
        holds(after, k),
        index_of(after, k) == index_of(before, k),
        after[index_of(after, k)] == before[index_of(before, k)],
{
    let j = index_of(before, k);
    assert(after[j] == before[j]);
    lemma_index_of(after, j);
}

/// A tile depends on the seed and its chunk alone: two worlds with one seed,
/// whatever chunks they generated and in whatever order, agree on every
/// coordinate both hold and neither has written, and there hold the tile
/// generation makes.
pub proof fn lemma_worlds_agree(a: World, b: World, c: Coord)
    requires
        a.wf(),
        b.wf(),
        a.chunks.seed == b.chunks.seed,
        holds(a.held(), world_chunk(c)),
        holds(b.held(), world_chunk(c)),
        !a.chunks.written@.contains((world_chunk(c), world_local(c))),
        !b.chunks.written@.contains((world_chunk(c), world_local(c))),
    ensures
        world_tile(a.held(), c) == generated_tile(a.chunks.seed, c),
        world_tile(a.held(), c) == world_tile(b.held(), c),
{
    lemma_world_tile_generated(a, c);
    lemma_world_tile_generated(b, c);
}

proof fn lemma_world_tile_generated(w: World, c: Coord)
    requires
        w.wf(),
        holds(w.held(), world_chunk(c)),
        !w.chunks.written@.contains((world_chunk(c), world_local(c))),
    ensures
        world_tile(w.held(), c) == generated_tile(w.chunks.seed, c),
{
    let j = index_of(w.held(), world_chunk(c));
    assert(as_generated(w.held()[j], w.chunks.seed, w.chunks.written@));
    lemma_world_round_trip(c);
}

/// The world: chunks generated on first touch from one seed.
pub struct World {
    pub chunks: ChunkStorage,
}

impl World {
    pub open spec fn wf(&self) -> bool {
        self.chunks.wf()
    }

    /// The chunks held so far.
    pub open spec fn held(&self) -> Seq<Chunk> {
        self.chunks.chunks@
    }

    /// An empty world seeded `seed`.
    pub fn new(seed: u32) -> (r: Self)
        ensures
            r.wf(),
            r.chunks.seed == seed,
            r.held().len() == 0,
            r.chunks.written@ == Set::<(Coord, Coord)>::empty(),
    {
        Self { chunks: ChunkStorage::new(seed) }
    }

    /// Number of chunks generated so far.
    pub fn chunk_count(&self) -> (r: usize)
        ensures
            r == self.held().len(),
    {
        self.chunks.chunks.len()
    }

    /// The tile at world coordinate `c`, generating its chunk on first touch.
    pub fn at(&mut self, c: Coord) -> (r: Result<Tile, CarveError>)
        requires
            old(self).wf(),
        ensures
            r is Ok,
            final(self).wf(),
            final(self).chunks.seed == old(self).chunks.seed,
            extends(old(self).held(), final(self).held()),
            r matches Ok(t) ==> holds(final(self).held(), world_chunk(c)) && t == world_tile(
                final(self).held(),
                c,
            ),
            holds(old(self).held(), world_chunk(c)) ==> r == Ok::<Tile, CarveError>(
                world_tile(old(self).held(), c),
            ) && final(self).held() == old(self).held(),
            !holds(old(self).held(), world_chunk(c)) ==> (r is Ok <==> chunk_spec(
                world_chunk(c),
                old(self).chunks.seed,
            ) is Some),
            r matches Ok(t) ==> !holds(old(self).held(), world_chunk(c)) ==> t == generated_tile(
                old(self).chunks.seed,
                c,
            ),
            !old(self).chunks.written@.contains((world_chunk(c), world_local(c))) ==> r == Ok::<
                Tile,
                CarveError,
            >(generated_tile(old(self).chunks.seed, c)),
            final(self).chunks.written == old(self).chunks.written,
    {
        let (k, l) = world_to_chunk(c);
        let i = self.chunks.lookup(k)?;
        proof {
            lemma_index_of(self.held(), i as int);
            assert(as_generated(self.held()[i as int], self.chunks.seed, self.chunks.written@));
        }
        Ok(self.chunks.chunk(i).at(l))
    }

    /// Replaces the tile at world coordinate `c`, generating its chunk on
    /// first touch. Every other coordinate keeps its tile.
    pub fn set(&mut self, c: Coord, tile: Tile) -> (r: Result<(), CarveError>)
        requires
            old(self).wf(),
        ensures
            r is Ok,
            final(self).wf(),
            final(self).chunks.seed == old(self).chunks.seed,
            final(self).held().len() >= old(self).held().len(),
            r is Ok ==> holds(final(self).held(), world_chunk(c)) && world_tile(final(self).held(), c)
                == tile,
            r is Err ==> final(self).held() == old(self).held(),
            final(self).chunks.written@ == old(self).chunks.written@.insert((world_chunk(c), world_local(c))),
            r is Ok <==> (holds(old(self).held(), world_chunk(c)) || chunk_spec(
                world_chunk(c),
                old(self).chunks.seed,
            ) is Some),
            forall|j: int|
                0 <= j < old(self).held().len() ==> #[trigger] features(final(self).held()[j]) == features(
                    old(self).held()[j],
                ),
            forall|d: Coord|
                d != c && holds(old(self).held(), world_chunk(d)) ==> holds(
                    final(self).held(),
                    world_chunk(d),
                ) && #[trigger] world_tile(final(self).held(), d) == world_tile(old(self).held(), d),
    {
        let ghost h0 = self.held();
        let (k, l) = world_to_chunk(c);
        let i = self.chunks.lookup(k)?;
        let ghost h1 = self.held();
        self.chunks.set_tile(i, l, tile);
        proof {
            let h2 = self.held();
            lemma_index_of(h2, i as int);
            lemma_index_coord(l);
            assert forall|d: Coord|
                d != c && holds(h0, world_chunk(d)) implies holds(h2, world_chunk(d)) && #[trigger] world_tile(
                    h2,
                    d,
                ) == world_tile(h0, d) by {
                let kd = world_chunk(d);
                lemma_extends_keeps(h0, h1, kd);
                let j = index_of(h1, kd);
                assert(h2[j].coord == h1[j].coord);
                lemma_index_of(h2, j);
                lemma_world_round_trip(d);
                if j == i {
                    if world_local(d) == l {
                        lemma_world_injective(c, d);
                    }
                    lemma_index_coord(world_local(d));
                    if tile_index(world_local(d)) == tile_index(l) {
                        crate::chunk::lemma_index_injective(world_local(d), l);
                    }
                }
            }
        }
        Ok(())
    }
}


/// Whether `b` is one king's move from `a`: orthogonal or diagonal.
pub open spec fn king_step(a: Coord, b: Coord) -> bool {
    a != b && -1 <= a.x - b.x <= 1 && -1 <= a.y - b.y <= 1
}

/// Cost of a king's move: 10 straight, 14 diagonal.
pub open spec fn move_cost(a: Coord, b: Coord) -> nat {
    if a.x == b.x || a.y == b.y { 10 } else { 14 }
}

/// Total cost of the moves of a path.
pub open spec fn path_cost(p: Seq<Coord>) -> nat
    decreases p.len(),
{
    if p.len() <= 1 {
        0
    } else {
        path_cost(p.drop_last()) + move_cost(p[p.len() - 2], p.last())
    }
}

/// Squared distance between the centers of two tiles.
pub open spec fn center_distance_squared(a: Coord, b: Coord) -> int {
    (a.x - b.x) * (a.x - b.x) + (a.y - b.y) * (a.y - b.y)
}

/// Whether `c` is close enough to some target: ten times the squared
/// distance between tile centers at most the squared threshold.
pub open spec fn in_range(targets: Seq<Coord>, threshold: u32, c: Coord) -> bool {
    exists|k: int|
        0 <= k < targets.len() && 10 * center_distance_squared(c, #[trigger] targets[k]) <= threshold
            * threshold
}

/// Whether `c` is one of `targets`.
pub open spec fn is_target(targets: Seq<Coord>, c: Coord) -> bool {
    exists|k: int| 0 <= k < targets.len() && #[trigger] targets[k] == c
}

/// Whether world coordinate `c` is held and walkable.
pub open spec fn walkable_in(chunks: Seq<Chunk>, c: Coord) -> bool {
    holds(chunks, world_chunk(c)) && world_tile(chunks, c) == Tile::Floor
}

/// A route: from `start`, one king's move at a time over walkable tiles
/// within the threshold of a target, cutting no corner, to one of
/// `targets`.
pub open spec fn is_route(
    chunks: Seq<Chunk>,
    targets: Seq<Coord>,
    threshold: u32,
    start: Coord,
    p: Seq<Coord>,
) -> bool {
    &&& p.len() > 0
    &&& p[0] == start
    &&& is_target(targets, p.last())
    &&& forall|i: int| 0 <= i < p.len() - 1 ==> king_step(#[trigger] p[i], p[i + 1])
    &&& forall|i: int| 0 <= i < p.len() - 1 ==> corner_free(chunks, #[trigger] p[i], p[i + 1])
    &&& forall|i: int| 1 <= i < p.len() ==> walkable_in(chunks, #[trigger] p[i])
    &&& forall|i: int| 1 <= i < p.len() ==> in_range(targets, threshold, #[trigger] p[i])
}

/// The tile at world coordinate `c` of the world seeded `seed` that holds
/// `chunks`: the held tile, or where the chunk is not held, the tile its
/// generation makes.
pub open spec fn tile_in_world(chunks: Seq<Chunk>, seed: u32, c: Coord) -> Tile {
    if holds(chunks, world_chunk(c)) { world_tile(chunks, c) } else { generated_tile(seed, c) }
}

/// Whether world coordinate `c` is floor in that world.
pub open spec fn open_in_world(chunks: Seq<Chunk>, seed: u32, c: Coord) -> bool {
    tile_in_world(chunks, seed, c) == Tile::Floor
}

/// A route in that world: from `start`, one king's move at a time onto
/// floor within the threshold of a target, cutting no corner, to one of
/// `targets`.
pub open spec fn is_world_route(
    chunks: Seq<Chunk>,
    seed: u32,
    targets: Seq<Coord>,
    threshold: u32,
    start: Coord,
    p: Seq<Coord>,
) -> bool {
    &&& p.len() > 0
    &&& p[0] == start
    &&& is_target(targets, p.last())
    &&& forall|i: int| 0 <= i < p.len() - 1 ==> king_step(#[trigger] p[i], p[i + 1])
    &&& forall|i: int|
        0 <= i < p.len() - 1 ==> (#[trigger] p[i]).x == p[i + 1].x || p[i].y == p[i + 1].y || (open_in_world(
            chunks,
            seed,
            Coord { x: p[i].x, y: p[i + 1].y },
        ) && open_in_world(chunks, seed, Coord { x: p[i + 1].x, y: p[i].y }))
    &&& forall|i: int| 1 <= i < p.len() ==> open_in_world(chunks, seed, #[trigger] p[i])
    &&& forall|i: int| 1 <= i < p.len() ==> in_range(targets, threshold, #[trigger] p[i])
}

/// The chunks held, as coordinates and grids.
pub open spec fn held_view(chunks: Seq<Chunk>) -> Seq<(Coord, Seq<Tile>)> {
    Seq::new(chunks.len(), |i: int| (chunks[i].coord, chunks[i].tiles@))
}

/// A move from `a` to `b` cuts no corner: it is straight, or both tiles
/// flanking the diagonal are walkable.
pub open spec fn corner_free(chunks: Seq<Chunk>, a: Coord, b: Coord) -> bool {
    a.x == b.x || a.y == b.y || (walkable_in(chunks, Coord { x: a.x, y: b.y }) && walkable_in(
        chunks,
        Coord { x: b.x, y: a.y },
    ))
}

/// `a` shifted by `(dx, dy)`, if that stays within `i32`.
fn shifted(a: Coord, dx: i32, dy: i32) -> (r: Option<Coord>)
    requires
        -1 <= dx <= 1,
        -1 <= dy <= 1,
    ensures
        r matches Some(b) ==> b.x == a.x + dx && b.y == a.y + dy,
{
    let x = a.x as i64 + dx as i64;
    let y = a.y as i64 + dy as i64;
    if x < i32::MIN as i64 || x > i32::MAX as i64 || y < i32::MIN as i64 || y > i32::MAX as i64 {
        None
    } else {
        Some(coord(x as i32, y as i32))
    }
}

/// Whether `c` is one of `targets`; the goal test of a route search.
pub fn is_route_target(c: &Coord, targets: &Vec<Coord>) -> (r: bool)
    ensures
        r == is_target(targets@, *c),
{
    let mut k: usize = 0;
    while k < targets.len()
        invariant
            k <= targets@.len(),
            forall|j: int| 0 <= j < k ==> targets@[j] != *c,
        decreases targets@.len() - k,
    {
        if targets[k].x == c.x && targets[k].y == c.y {
            return true;
        }
        k = k + 1;
    }
    false
}

/// `10 * |a - b|^2` between tile centers, exactly.
fn scaled_distance_squared(a: Coord, b: Coord) -> (r: u128)
    ensures
        r == 10 * center_distance_squared(a, b),
        r <= 0x20_0000_0000_0000_0000,
{
    let dx = (a.x as i64 - b.x as i64) as i128;
    let dy = (a.y as i64 - b.y as i64) as i128;
    proof {
        assert(0 <= dx * dx <= 0x1_0000_0000_0000_0000) by (nonlinear_arith)
            requires
                -0x1_0000_0000 <= dx <= 0x1_0000_0000,
        ;
        assert(0 <= dy * dy <= 0x1_0000_0000_0000_0000) by (nonlinear_arith)
            requires
                -0x1_0000_0000 <= dy <= 0x1_0000_0000,
        ;
    }
    (10 * (dx * dx + dy * dy)) as u128
}

/// Whether `c` is within the threshold of some target.
pub fn route_in_range(c: Coord, targets: &Vec<Coord>, threshold: u32) -> (r: bool)
    ensures
        r == in_range(targets@, threshold, c),
{
    proof {
        assert(threshold * threshold <= 0x1_0000_0000_0000_0000) by (nonlinear_arith)
            requires
                0 <= threshold <= u32::MAX,
        ;
    }
    let limit = threshold as u128 * threshold as u128;
    let mut k: usize = 0;
    while k < targets.len()
        invariant
            k <= targets@.len(),
            limit == threshold * threshold,
            forall|j: int| 0 <= j < k ==> 10 * center_distance_squared(c, #[trigger] targets@[j]) > threshold * threshold,
        decreases targets@.len() - k,
    {
        if scaled_distance_squared(c, targets[k]) <= limit {
            return true;
        }
        k = k + 1;
    }
    false
}

/// Octile distance between tile centers, scaled by ten: 10 per straight
/// step and 14 per diagonal step on an open grid.
pub open spec fn octile(a: Coord, b: Coord) -> int {
    let dx = crate::coord::abs(a.x - b.x) as int;
    let dy = crate::coord::abs(a.y - b.y) as int;
    if dx >= dy { 10 * dx + 4 * dy } else { 10 * dy + 4 * dx }
}

/// The octile distance from `a` to `b`.
fn octile_distance(a: Coord, b: Coord) -> (r: u64)
    ensures
        r == octile(a, b),
{
    let dx = if a.x >= b.x { (a.x as i64 - b.x as i64) as u64 } else { (b.x as i64 - a.x as i64) as u64 };
    let dy = if a.y >= b.y { (a.y as i64 - b.y as i64) as u64 } else { (b.y as i64 - a.y as i64) as u64 };
    if dx >= dy { 10 * dx + 4 * dy } else { 10 * dy + 4 * dx }
}

/// Estimate of the remaining cost from `c`: the octile distance to the
/// nearest target, which never exceeds the cost of a route there.
pub fn route_heuristic(c: &Coord, targets: &Vec<Coord>) -> (r: u64)
    ensures
        forall|k: int| 0 <= k < targets@.len() ==> r <= octile(*c, #[trigger] targets@[k]),
        targets@.len() > 0 ==> exists|k: int| 0 <= k < targets@.len() && r == octile(*c, #[trigger] targets@[k]),
{
    let mut best: u64 = u64::MAX;
    let mut k: usize = 0;
    while k < targets.len()
        invariant
            k <= targets@.len(),
            forall|j: int| 0 <= j < k ==> best <= octile(*c, #[trigger] targets@[j]),
            k > 0 ==> exists|j: int| 0 <= j < k && best == octile(*c, #[trigger] targets@[j]),
            k == 0 ==> best == u64::MAX,
        decreases targets@.len() - k,
    {
        let h = octile_distance(*c, targets[k]);
        if h < best {
            best = h;
        }
        k = k + 1;
    }
    best
}

impl World {
    /// Whether world coordinate `c` is walkable; a chunk that cannot be
    /// generated is recorded in `failure` and counts as blocked.
    fn walkable(&mut self, c: Coord, failure: &mut Option<CarveError>) -> (r: bool)
        requires
            old(self).wf(),
        ensures
            final(self).wf(),
            final(self).chunks.seed == old(self).chunks.seed,
            extends(old(self).held(), final(self).held()),
            r ==> walkable_in(final(self).held(), c),
            *final(failure) == *old(failure),
    {
        match self.at(c) {
            Ok(t) => t == Tile::Floor,
            Err(e) => {
                *failure = Some(e);
                false
            },
        }
    }

    /// The moves a route may make from `c`: straight onto walkable tiles,
    /// diagonally where both tiles flanking the move are walkable too, each
    /// onto a tile within the threshold of a target.
    pub fn route_successors(
        &mut self,
        c: Coord,
        targets: &Vec<Coord>,
        threshold: u32,
        failure: &mut Option<CarveError>,
    ) -> (r: Vec<(Coord, u64)>)
        requires
            old(self).wf(),
        ensures
            *final(failure) == *old(failure),
            final(self).wf(),
            final(self).chunks.seed == old(self).chunks.seed,
            extends(old(self).held(), final(self).held()),
            forall|k: int|
                0 <= k < r@.len() ==> {
                    &&& king_step(c, (#[trigger] r@[k]).0)
                    &&& r@[k].1 == move_cost(c, r@[k].0)
                    &&& walkable_in(final(self).held(), r@[k].0)
                    &&& corner_free(final(self).held(), c, r@[k].0)
                    &&& in_range(targets@, threshold, r@[k].0)
                },
    {
        let mut r: Vec<(Coord, u64)> = Vec::new();
        let directs: [(i32, i32); 4] = [(0, 1), (-1, 0), (1, 0), (0, -1)];
        let mut q: usize = 0;
        while q < 4
            invariant
                *failure == *old(failure),
                self.wf(),
                self.chunks.seed == old(self).chunks.seed,
                extends(old(self).held(), self.held()),
                directs@ == seq![(0i32, 1i32), (-1i32, 0i32), (1i32, 0i32), (0i32, -1i32)],
                forall|k: int|
                    0 <= k < r@.len() ==> {
                        &&& king_step(c, (#[trigger] r@[k]).0)
                        &&& r@[k].1 == move_cost(c, r@[k].0)
                        &&& walkable_in(self.held(), r@[k].0)
                        &&& corner_free(self.held(), c, r@[k].0)
                        &&& in_range(targets@, threshold, r@[k].0)
                    },
            decreases 4 - q,
        {
            let (dx, dy) = directs[q];
            if let Some(n) = shifted(c, dx, dy) {
                let ghost h0 = self.held();
                let ok = self.walkable(n, failure);
                proof {
                    lemma_walkable_kept(h0, self.held(), c, r@);
                }
                if ok && route_in_range(n, targets, threshold) {
                    r.push((n, 10));
                }
            }
            q = q + 1;
        }
        let diagonals: [(i32, i32); 4] = [(1, 1), (1, -1), (-1, -1), (-1, 1)];
        let mut q: usize = 0;
        while q < 4
            invariant
                *failure == *old(failure),
                self.wf(),
                self.chunks.seed == old(self).chunks.seed,
                extends(old(self).held(), self.held()),
                diagonals@ == seq![(1i32, 1i32), (1i32, -1i32), (-1i32, -1i32), (-1i32, 1i32)],
                forall|k: int|
                    0 <= k < r@.len() ==> {
                        &&& king_step(c, (#[trigger] r@[k]).0)
                        &&& r@[k].1 == move_cost(c, r@[k].0)
                        &&& walkable_in(self.held(), r@[k].0)
                        &&& corner_free(self.held(), c, r@[k].0)
                        &&& in_range(targets@, threshold, r@[k].0)
                    },
            decreases 4 - q,
        {
            let (dx, dy) = diagonals[q];
            if let (Some(n), Some(side_y), Some(side_x)) = (
                shifted(c, dx, dy),
                shifted(c, 0, dy),
                shifted(c, dx, 0),
            ) {
                let ghost h0 = self.held();
                let a = self.walkable(n, failure);
                let ghost h1 = self.held();
                let b = self.walkable(side_y, failure);
                let ghost h2 = self.held();
                let d = self.walkable(side_x, failure);
                proof {
                    lemma_walkable_kept(h0, h1, c, r@);
                    lemma_walkable_kept(h1, h2, c, r@);
                    lemma_walkable_kept(h2, self.held(), c, r@);
                    if a {
                        lemma_walkable_one(h1, h2, n);
                        lemma_walkable_one(h2, self.held(), n);
                    }
                    if b {
                        lemma_walkable_one(h2, self.held(), side_y);
                    }
                }
                if a && b && d && route_in_range(n, targets, threshold) {
                    r.push((n, 14));
                }
            }
            q = q + 1;
        }
        r
    }
}

/// Walkable tiles stay walkable when chunks are only added.
proof fn lemma_walkable_one(before: Seq<Chunk>, after: Seq<Chunk>, c: Coord)
    requires
        extends(before, after),
        coords_unique(after),
    ensures
        walkable_in(before, c) ==> walkable_in(after, c),
{
    if walkable_in(before, c) {
        lemma_extends_keeps(before, after, world_chunk(c));
    }
}

/// Moves stay walkable and free of cut corners when chunks are only added.
proof fn lemma_walkable_kept(before: Seq<Chunk>, after: Seq<Chunk>, c: Coord, moves: Seq<(Coord, u64)>)
    requires
        extends(before, after),
        coords_unique(after),
    ensures
        forall|k: int|
            0 <= k < moves.len() && walkable_in(before, (#[trigger] moves[k]).0) ==> walkable_in(
                after,
                moves[k].0,
            ),
        forall|k: int|
            0 <= k < moves.len() && corner_free(before, c, (#[trigger] moves[k]).0) ==> corner_free(
                after,
                c,
                moves[k].0,
            ),
{
    assert forall|k: int| 0 <= k < moves.len() && walkable_in(before, (#[trigger] moves[k]).0) implies walkable_in(
        after,
        moves[k].0,
    ) by {
        lemma_walkable_one(before, after, moves[k].0);
    }
    assert forall|k: int| 0 <= k < moves.len() && corner_free(before, c, (#[trigger] moves[k]).0) implies corner_free(
        after,
        c,
        moves[k].0,
    ) by {
        let m = moves[k].0;
        lemma_walkable_one(before, after, Coord { x: c.x, y: m.y });
        lemma_walkable_one(before, after, Coord { x: m.x, y: c.y });
    }
}


/// The cost of a route, in whole tiles: its move cost divided by ten,
/// rounded up (capped at `usize::MAX`).
pub open spec fn route_tiles(p: Seq<Coord>) -> nat {
    let c = (path_cost(p) + 9) / 10;
    if c <= usize::MAX { c as nat } else { usize::MAX as nat }
}

proof fn lemma_path_cost_step(p: Seq<Coord>, i: int)
    requires
        0 <= i,
        i + 2 <= p.len(),
    ensures
        path_cost(p.take(i + 2)) == path_cost(p.take(i + 1)) + move_cost(p[i], p[i + 1]),
{
    assert(p.take(i + 2).drop_last() =~= p.take(i + 1));
}

proof fn lemma_path_cost_bound(p: Seq<Coord>)
    ensures
        path_cost(p) <= 14 * p.len(),
    decreases p.len(),
{
    if p.len() > 1 {
        lemma_path_cost_bound(p.drop_last());
    }
}

/// The move cost of a path.
fn route_cost(p: &Vec<Coord>) -> (r: u128)
    requires
        p@.len() > 0,
    ensures
        r == path_cost(p@),
        r <= 14 * p@.len(),
{
    let mut total: u128 = 0;
    let mut i: usize = 0;
    proof {
        assert(p@.take(1).len() == 1);
    }
    while i < p.len() - 1
        invariant
            0 <= i < p@.len(),
            total == path_cost(p@.take(i + 1)),
        decreases p@.len() - i,
    {
        proof {
            lemma_path_cost_step(p@, i as int);
            lemma_path_cost_bound(p@.take(i + 2));
        }
        let a = p[i];
        let b = p[i + 1];
        let step: u128 = if a.x == b.x || a.y == b.y { 10 } else { 14 };
        total = total + step;
        i = i + 1;
    }
    proof {
        assert(p@.take(i + 1) =~= p@);
        lemma_path_cost_bound(p@);
    }
    total
}

/// The cost of a path in whole tiles.
fn route_tiles_of(path: &Vec<Coord>) -> (r: usize)
    requires
        path@.len() > 0,
    ensures
        r == route_tiles(path@),
{
    let total = route_cost(path);
    let n = path.len();
    proof {
        assert(n <= u64::MAX);
    }
    let tiles = (total + 9) / 10;
    if tiles > usize::MAX as u128 { usize::MAX } else { tiles as usize }
}

impl World {
    /// A route from `start` to the nearest reachable of `targets`, moving
    /// straight or diagonally (never cutting a corner) over walkable tiles
    /// that stay within the threshold of a target, with its cost in tiles.
    /// No targets, or none reachable, give no route; a start among the
    /// targets gives the route of that one tile at no cost.
    pub fn pathfind(&mut self, start: Coord, targets: &Vec<Coord>, threshold: u32) -> (r: Result<
        Option<(Vec<Coord>, usize)>,
        CarveError,
    >)
        requires
            old(self).wf(),
        ensures
            r is Ok,
            final(self).wf(),
            final(self).chunks.seed == old(self).chunks.seed,
            extends(old(self).held(), final(self).held()),
            targets@.len() == 0 ==> r matches Ok(None),
            is_target(targets@, start) ==> (r matches Ok(Some((p, c))) && p@ == seq![start] && c == 0),
            r matches Ok(Some((p, c))) ==> is_route(final(self).held(), targets@, threshold, start, p@) && c
                == route_tiles(p@),
            targets@.len() > 0 && !is_target(targets@, start) ==> {
                let found = route_of(held_view(old(self).held()), old(self).chunks.seed, start, targets@, threshold);
                &&& (r is Err <==> found.1)
                &&& (r matches Ok(x) ==> (x is None <==> found.0 is None))
                &&& (r matches Ok(Some((p, c))) ==> found.0 == Some(p@))
            },
            r matches Ok(Some((p, c))) ==> is_world_route(old(self).held(), old(self).chunks.seed, targets@, threshold, start, p@),
            r matches Ok(Some((p, c))) ==> forall|q: Seq<Coord>|
                #[trigger] is_world_route(old(self).held(), old(self).chunks.seed, targets@, threshold, start, q)
                    ==> path_cost(p@) <= path_cost(q),
            r matches Ok(None) ==> forall|q: Seq<Coord>|
                !#[trigger] is_world_route(old(self).held(), old(self).chunks.seed, targets@, threshold, start, q),
    {
        if targets.len() == 0 {
            return Ok(None);
        }
        if is_route_target(&start, targets) {
            let p = vec![start];
            proof {
                assert(p@ == seq![start]);
                assert(path_cost(p@) == 0);
            }
            return Ok(Some((p, 0)));
        }
        let mut failure: Option<CarveError> = None;
        let found = crate::outside::route_search(self, start, targets, threshold, &mut failure);
        if let Some(e) = failure {
            return Err(e);
        }
        match found {
            None => Ok(None),
            Some(path) => {
                let cost = route_tiles_of(&path);
                Ok(Some((path, cost)))
            },
        }
    }
}


/// The extent of the world along each axis, in thousandths of a tile: the
/// tiles with `i32` coordinates.
pub const WORLD_EXTENT: i64 = 2_147_483_648_000;

/// Rectangles with a non-negative size that lie within the world.
pub open spec fn rect_ok(r: Rect) -> bool {
    &&& -WORLD_EXTENT <= r.position.x
    &&& -WORLD_EXTENT <= r.position.y
    &&& 0 <= r.size.x
    &&& 0 <= r.size.y
    &&& r.position.x + r.size.x <= WORLD_EXTENT
    &&& r.position.y + r.size.y <= WORLD_EXTENT
}

/// The chunk holding the tile that holds the fixed-point position `v`.
pub open spec fn chunk_of_position(v: int) -> int {
    (v / POINT_SCALE as int + CHUNK_SIZE_I32 / 2) / CHUNK_SIZE_I32 as int
}

/// The lowest and highest chunk coordinates a rectangle overlaps.
pub open spec fn chunk_box(r: Rect) -> (Coord, Coord) {
    (
        Coord {
            x: chunk_of_position(r.position.x as int) as i32,
            y: chunk_of_position(r.position.y as int) as i32,
        },
        Coord {
            x: chunk_of_position(r.position.x + r.size.x) as i32,
            y: chunk_of_position(r.position.y + r.size.y) as i32,
        },
    )
}

proof fn lemma_chunk_of_position(v: int)
    requires
        -0x200_0000_0000 <= v <= 0x200_0000_0000,
    ensures
        -50_000_000 <= chunk_of_position(v) <= 50_000_000,
{
    let t = v / 1000;
    vstd::arithmetic::div_mod::lemma_fundamental_div_mod(v, 1000);
    vstd::arithmetic::div_mod::lemma_mod_bound(v, 1000);
    assert(-2_200_000_000 <= t <= 2_200_000_000) by (nonlinear_arith)
        requires
            v == 1000 * t + v % 1000,
            0 <= v % 1000 < 1000,
            -0x200_0000_0000 <= v <= 0x200_0000_0000,
    ;
    let u = t + 25;
    vstd::arithmetic::div_mod::lemma_fundamental_div_mod(u, 50);
    vstd::arithmetic::div_mod::lemma_mod_bound(u, 50);
    let w = u / 50;
    assert(-50_000_000 <= w <= 50_000_000) by (nonlinear_arith)
        requires
            u == 50 * w + u % 50,
            0 <= u % 50 < 50,
            -2_200_000_000 + 25 <= u <= 2_200_000_000 + 25,
    ;
}

/// The chunk of a fixed-point position, exactly.
fn position_chunk(v: i64) -> (r: i32)
    requires
        -0x200_0000_0000 <= v <= 0x200_0000_0000,
    ensures
        r == chunk_of_position(v as int),
        -50_000_000 <= r <= 50_000_000,
{
    proof {
        lemma_chunk_of_position(v as int);
    }
    let t = v.checked_div_euclid(POINT_SCALE).unwrap();
    let k = (t + (CHUNK_SIZE_I32 / 2) as i64).checked_div_euclid(CHUNK_SIZE_I32 as i64).unwrap();
    k as i32
}

/// Every chunk of the box `lo..=hi` is held or generates.
pub open spec fn box_ok(chunks: Seq<Chunk>, seed: u32, lo: Coord, hi: Coord) -> bool {
    forall|k: Coord| #[trigger] in_box(k, lo, hi) ==> holds(chunks, k) || chunk_spec(k, seed) is Some
}

/// Every chunk of the box `lo..=hi` is held.
pub open spec fn box_held(chunks: Seq<Chunk>, lo: Coord, hi: Coord) -> bool {
    forall|k: Coord| #[trigger] in_box(k, lo, hi) ==> holds(chunks, k)
}

/// Positions in `chunks` of the chunks of the box `lo..=hi`, row by row.
pub open spec fn box_indices(chunks: Seq<Chunk>, lo: Coord, hi: Coord) -> Seq<usize> {
    Seq::new(box_len(lo, hi), |q: int| index_of(chunks, box_at(lo, hi, q)) as usize)
}

/// The positions of `ps` inside `r`, in order.
pub open spec fn filter_in(ps: Seq<Point>, r: Rect) -> Seq<Point>
    decreases ps.len(),
{
    if ps.len() == 0 {
        seq![]
    } else {
        let f = filter_in(ps.drop_last(), r);
        if rect_contains(r, ps.last()) { f.push(ps.last()) } else { f }
    }
}

/// The reward caches of `cs` inside `r`, in order.
pub open spec fn chests_within(cs: Seq<Chest>, r: Rect) -> Seq<Chest>
    decreases cs.len(),
{
    if cs.len() == 0 {
        seq![]
    } else {
        let f = chests_within(cs.drop_last(), r);
        if rect_contains(r, cs.last().position) { f.push(cs.last()) } else { f }
    }
}

/// The spawners (or decorations) inside `r` of the chunks at positions
/// `idx`, chunk by chunk.
pub open spec fn gather_points(chunks: Seq<Chunk>, idx: Seq<usize>, r: Rect, decorations: bool) -> Seq<Point>
    decreases idx.len(),
{
    if idx.len() == 0 {
        seq![]
    } else {
        gather_points(chunks, idx.drop_last(), r, decorations) + filter_in(
            points_of(chunks[idx.last() as int], decorations),
            r,
        )
    }
}

/// The reward caches inside `r` of the chunks at positions `idx`.
pub open spec fn gather_chests(chunks: Seq<Chunk>, idx: Seq<usize>, r: Rect) -> Seq<Chest>
    decreases idx.len(),
{
    if idx.len() == 0 {
        seq![]
    } else {
        gather_chests(chunks, idx.drop_last(), r) + chests_within(chunks[idx.last() as int].chests@, r)
    }
}

/// The spawners (or decorations) inside `r`, from the chunks it overlaps.
pub open spec fn box_points(chunks: Seq<Chunk>, r: Rect, decorations: bool) -> Seq<Point> {
    gather_points(chunks, box_indices(chunks, chunk_box(r).0, chunk_box(r).1), r, decorations)
}

/// The reward caches inside `r`, from the chunks it overlaps.
pub open spec fn box_chests(chunks: Seq<Chunk>, r: Rect) -> Seq<Chest> {
    gather_chests(chunks, box_indices(chunks, chunk_box(r).0, chunk_box(r).1), r)
}

/// The spawners of a chunk, or its decorations.
pub open spec fn points_of(c: Chunk, decorations: bool) -> Seq<Point> {
    if decorations { c.decorations@ } else { c.spawners@ }
}

/// Adding one chunk at `c` leaves every other coordinate held as before.
proof fn lemma_holds_after_add(before: Seq<Chunk>, after: Seq<Chunk>, c: Coord, k: Coord)
    requires
        extends(before, after),
        after.len() == before.len() + 1,
        after[before.len() as int].coord == c,
        k != c,
    ensures
        holds(after, k) == holds(before, k),
{
    if holds(after, k) {
        let j = choose|j: int| 0 <= j < after.len() && (#[trigger] after[j]).coord == k;
        assert(j < before.len());
        assert(before[j] == after[j]);
    }
    if holds(before, k) {
        let j = choose|j: int| 0 <= j < before.len() && (#[trigger] before[j]).coord == k;
        assert(after[j] == before[j]);
    }
}

/// One step of `chunks_in`: after looking up `k0`, the facts its loop
/// keeps hold one coordinate further on.
proof fn lemma_visit_step(
    h0: Seq<Chunk>,
    h1: Seq<Chunk>,
    h2: Seq<Chunk>,
    v0: Seq<usize>,
    v: Seq<usize>,
    lo: Coord,
    hi: Coord,
    w: int,
    seed: u32,
    k0: Coord,
    i: usize,
)
    requires
        coords_unique(h2),
        coords_unique(h1),
        extends(h1, h2),
        w == hi.x - lo.x + 1,
        in_box(k0, lo, hi),
        v0.len() == (k0.y - lo.y) * w + (k0.x - lo.x),
        v == v0.push(i),
        i < h2.len(),
        h2[i as int].coord == k0,
        holds(h1, k0) ==> h2 == h1,
        !holds(h1, k0) ==> h2.len() == h1.len() + 1 && i == h1.len(),
        !holds(h1, k0) ==> chunk_spec(k0, seed) is Some,
        forall|q: int|
            0 <= q < v0.len() ==> #[trigger] v0[q] < h1.len() && h1[v0[q] as int].coord == box_at(lo, hi, q),
        forall|k: Coord|
            #[trigger] in_box(k, lo, hi) && (k.y < k0.y || (k.y == k0.y && k.x < k0.x)) ==> holds(h1, k) && (
            holds(h0, k) || chunk_spec(k, seed) is Some),
        forall|k: Coord|
            #[trigger] in_box(k, lo, hi) && (k.y > k0.y || (k.y == k0.y && k.x >= k0.x)) ==> holds(h1, k)
                == holds(h0, k),
    ensures
        forall|q: int|
            0 <= q < v.len() ==> #[trigger] v[q] < h2.len() && h2[v[q] as int].coord == box_at(lo, hi, q),
        forall|k: Coord|
            #[trigger] in_box(k, lo, hi) && (k.y < k0.y || (k.y == k0.y && k.x < k0.x + 1)) ==> holds(h2, k) && (
            holds(h0, k) || chunk_spec(k, seed) is Some),
        forall|k: Coord|
            #[trigger] in_box(k, lo, hi) && (k.y > k0.y || (k.y == k0.y && k.x >= k0.x + 1)) ==> holds(h2, k)
                == holds(h0, k),
{
    let q0 = (k0.y - lo.y) * w + (k0.x - lo.x);
    crate::coord::lemma_row_index(k0.y - lo.y, k0.x - lo.x, w);
    assert(box_at(lo, hi, q0) == k0);
    assert forall|q: int| 0 <= q < v.len() implies #[trigger] v[q] < h2.len() && h2[v[q] as int].coord == box_at(
        lo,
        hi,
        q,
    ) by {
        if q < v0.len() {
            assert(v[q] == v0[q]);
            assert(h2[v0[q] as int] == h1[v0[q] as int]);
        }
    }
    assert forall|k: Coord|
        #[trigger] in_box(k, lo, hi) && (k.y < k0.y || (k.y == k0.y && k.x < k0.x + 1)) implies holds(h2, k) && (
        holds(h0, k) || chunk_spec(k, seed) is Some) by {
        if k != k0 {
            lemma_extends_keeps(h1, h2, k);
        } else {
            assert(h2[i as int].coord == k0);
            if !holds(h1, k0) {
            } else {
                assert(holds(h1, k0) == holds(h0, k0));
            }
        }
    }
    assert forall|k: Coord|
        #[trigger] in_box(k, lo, hi) && (k.y > k0.y || (k.y == k0.y && k.x >= k0.x + 1)) implies holds(h2, k)
            == holds(h0, k) by {
        if !holds(h1, k0) {
            lemma_holds_after_add(h1, h2, k0, k);
        }
    }
}

impl World {
    /// Positions in the world of the chunks that `r` overlaps, row by row,
    /// generating them on first touch. Fails when one of them cannot be
    /// generated.
    pub fn chunks_in(&mut self, r: Rect) -> (res: Result<Vec<usize>, CarveError>)
        requires
            old(self).wf(),
            rect_ok(r),
        ensures
            res is Ok,
            final(self).wf(),
            final(self).chunks.seed == old(self).chunks.seed,
            extends(old(self).held(), final(self).held()),
            res is Ok <==> box_ok(old(self).held(), old(self).chunks.seed, chunk_box(r).0, chunk_box(r).1),
            res matches Ok(v) ==> {
                &&& box_held(final(self).held(), chunk_box(r).0, chunk_box(r).1)
                &&& v@ == box_indices(final(self).held(), chunk_box(r).0, chunk_box(r).1)
                &&& forall|q: int| 0 <= q < v@.len() ==> #[trigger] v@[q] < final(self).held().len()
            },
    {
        let min_x = position_chunk(r.position.x);
        let min_y = position_chunk(r.position.y);
        let max_x = position_chunk(r.position.x + r.size.x);
        let max_y = position_chunk(r.position.y + r.size.y);
        let ghost lo = chunk_box(r).0;
        let ghost hi = chunk_box(r).1;
        let ghost seed = self.chunks.seed;
        let ghost h0 = self.held();
        let mut v: Vec<usize> = Vec::new();
        if max_x < min_x || max_y < min_y {
            proof {
                assert(v@ =~= box_indices(self.held(), lo, hi));
            }
            return Ok(v);
        }
        let ghost w = max_x - min_x + 1;
        let mut y: i32 = min_y;
        while y <= max_y
            invariant
                self.wf(),
                self.chunks.seed == seed,
                seed == old(self).chunks.seed,
                h0 == old(self).held(),
                extends(h0, self.held()),
                lo == (Coord { x: min_x, y: min_y }),
                hi == (Coord { x: max_x, y: max_y }),
                lo == chunk_box(r).0,
                hi == chunk_box(r).1,
                w == max_x - min_x + 1,
                -50_000_000 <= min_x <= max_x <= 50_000_000,
                -50_000_000 <= min_y <= max_y <= 50_000_000,
                min_y <= y <= max_y + 1,
                v@.len() == (y - min_y) * w,
                forall|q: int|
                    0 <= q < v@.len() ==> #[trigger] v@[q] < self.held().len() && self.held()[v@[q] as int].coord
                        == box_at(lo, hi, q),
                forall|k: Coord|
                    #[trigger] in_box(k, lo, hi) && k.y < y ==> holds(self.held(), k) && (holds(h0, k)
                        || chunk_spec(k, seed) is Some),
                forall|k: Coord|
                    #[trigger] in_box(k, lo, hi) && k.y >= y ==> holds(self.held(), k) == holds(h0, k),
            decreases max_y + 1 - y,
        {
            let mut x: i32 = min_x;
            while x <= max_x
                invariant
                    self.wf(),
                    self.chunks.seed == seed,
                    seed == old(self).chunks.seed,
                    h0 == old(self).held(),
                    extends(h0, self.held()),
                    lo == (Coord { x: min_x, y: min_y }),
                    hi == (Coord { x: max_x, y: max_y }),
                    lo == chunk_box(r).0,
                    hi == chunk_box(r).1,
                    w == max_x - min_x + 1,
                    -50_000_000 <= min_x <= max_x <= 50_000_000,
                    -50_000_000 <= min_y <= max_y <= 50_000_000,
                    min_y <= y <= max_y,
                    min_x <= x <= max_x + 1,
                    v@.len() == (y - min_y) * w + (x - min_x),
                    forall|q: int|
                        0 <= q < v@.len() ==> #[trigger] v@[q] < self.held().len() && self.held()[v@[q] as int].coord
                            == box_at(lo, hi, q),
                    forall|k: Coord|
                        #[trigger] in_box(k, lo, hi) && (k.y < y || (k.y == y && k.x < x)) ==> holds(
                            self.held(),
                            k,
                        ) && (holds(h0, k) || chunk_spec(k, seed) is Some),
                    forall|k: Coord|
                        #[trigger] in_box(k, lo, hi) && (k.y > y || (k.y == y && k.x >= x)) ==> holds(
                            self.held(),
                            k,
                        ) == holds(h0, k),
                decreases max_x + 1 - x,
            {
                let k0 = coord(x, y);
                let ghost h1 = self.held();
                let ghost v0 = v@;
                proof {
                    assert(in_box(k0, lo, hi));
                    assert(holds(self.held(), k0) == holds(h0, k0));
                }
                let i = match self.chunks.lookup(k0) {
                    Ok(i) => i,
                    Err(e) => {
                        proof {
                            assert(!holds(h1, k0));
                            assert(!holds(h0, k0));
                            assert(chunk_spec(k0, seed) is None);
                            assert(in_box(k0, lo, hi) && !(holds(h0, k0) || chunk_spec(k0, seed) is Some));
                            assert(!box_ok(h0, seed, lo, hi));
                        }
                        return Err(e);
                    },
                };
                v.push(i);
                proof {
                    lemma_visit_step(h0, h1, self.held(), v0, v@, lo, hi, w, seed, k0, i);
                }
                x = x + 1;
            }
            proof {
                assert((y - min_y) * w + w == (y + 1 - min_y) * w) by (nonlinear_arith);
            }
            y = y + 1;
        }
        proof {
            assert(box_len(lo, hi) == (max_y + 1 - min_y) * w) by (nonlinear_arith)
                requires
                    lo == (Coord { x: min_x, y: min_y }),
                    hi == (Coord { x: max_x, y: max_y }),
                    min_x <= max_x,
                    min_y <= max_y,
                    w == max_x - min_x + 1,
                    box_len(lo, hi) == if lo.x <= hi.x && lo.y <= hi.y {
                        (hi.x - lo.x + 1) * (hi.y - lo.y + 1)
                    } else {
                        0
                    },
            ;
            assert forall|q: int| 0 <= q < v@.len() implies v@[q] == index_of(self.held(), box_at(lo, hi, q)) as usize by {
                lemma_index_of(self.held(), v@[q] as int);
            }
            assert(v@ =~= box_indices(self.held(), lo, hi));
            assert forall|k: Coord| #[trigger] in_box(k, lo, hi) implies holds(self.held(), k) by {
                assert(k.y < y);
            }
            assert forall|k: Coord| #[trigger] in_box(k, lo, hi) implies holds(h0, k) || chunk_spec(k, seed) is Some by {
                assert(k.y < y);
            }
        }
        Ok(v)
    }

    /// The feature positions inside `r`, from the chunks it overlaps:
    /// decorations when `decorations` holds, spawners otherwise.
    fn points_in(&mut self, r: Rect, decorations: bool) -> (res: Result<Vec<Point>, CarveError>)
        requires
            old(self).wf(),
            rect_ok(r),
        ensures
            res is Ok,
            final(self).wf(),
            extends(old(self).held(), final(self).held()),
            res is Ok <==> box_ok(old(self).held(), old(self).chunks.seed, chunk_box(r).0, chunk_box(r).1),
            res is Ok ==> box_held(final(self).held(), chunk_box(r).0, chunk_box(r).1),
            res matches Ok(v) ==> v@ == box_points(final(self).held(), r, decorations),
    {
        let indices = self.chunks_in(r)?;
        let mut v: Vec<Point> = Vec::new();
        let mut n: usize = 0;
        while n < indices.len()
            invariant
                self.wf(),
                n <= indices@.len(),
                forall|q: int| 0 <= q < indices@.len() ==> #[trigger] indices@[q] < self.held().len(),
                v@ == gather_points(self.held(), indices@.take(n as int), r, decorations),
            decreases indices@.len() - n,
        {
            let chunk = self.chunks.chunk(indices[n]);
            proof {
                assert(indices@.take(n + 1).drop_last() =~= indices@.take(n as int));
            }
            if decorations {
                push_contained(&chunk.decorations, r, &mut v);
            } else {
                push_contained(&chunk.spawners, r, &mut v);
            }
            n = n + 1;
        }
        proof {
            assert(indices@.take(n as int) =~= indices@);
        }
        Ok(v)
    }

    /// The spawners inside `r`, from the chunks it overlaps, generating
    /// those not yet held.
    pub fn spawners_in(&mut self, r: Rect) -> (res: Result<Vec<Point>, CarveError>)
        requires
            old(self).wf(),
            rect_ok(r),
        ensures
            res is Ok,
            final(self).wf(),
            extends(old(self).held(), final(self).held()),
            res is Ok <==> box_ok(old(self).held(), old(self).chunks.seed, chunk_box(r).0, chunk_box(r).1),
            res is Ok ==> box_held(final(self).held(), chunk_box(r).0, chunk_box(r).1),
            res matches Ok(v) ==> v@ == box_points(final(self).held(), r, false),
    {
        self.points_in(r, false)
    }

    /// The decorations inside `r`, from the chunks it overlaps, generating
    /// those not yet held.
    pub fn decorations_in(&mut self, r: Rect) -> (res: Result<Vec<Point>, CarveError>)
        requires
            old(self).wf(),
            rect_ok(r),
        ensures
            res is Ok,
            final(self).wf(),
            extends(old(self).held(), final(self).held()),
            res is Ok <==> box_ok(old(self).held(), old(self).chunks.seed, chunk_box(r).0, chunk_box(r).1),
            res is Ok ==> box_held(final(self).held(), chunk_box(r).0, chunk_box(r).1),
            res matches Ok(v) ==> v@ == box_points(final(self).held(), r, true),
    {
        self.points_in(r, true)
    }

    /// The reward caches inside `r`, from the chunks it overlaps, generating
    /// those not yet held.
    pub fn chests_in(&mut self, r: Rect) -> (res: Result<Vec<Chest>, CarveError>)
        requires
            old(self).wf(),
            rect_ok(r),
        ensures
            res is Ok,
            final(self).wf(),
            extends(old(self).held(), final(self).held()),
            res is Ok <==> box_ok(old(self).held(), old(self).chunks.seed, chunk_box(r).0, chunk_box(r).1),
            res is Ok ==> box_held(final(self).held(), chunk_box(r).0, chunk_box(r).1),
            res matches Ok(v) ==> v@ == box_chests(final(self).held(), r),
    {
        let indices = self.chunks_in(r)?;
        let mut v: Vec<Chest> = Vec::new();
        let mut n: usize = 0;
        while n < indices.len()
            invariant
                self.wf(),
                n <= indices@.len(),
                forall|q: int| 0 <= q < indices@.len() ==> #[trigger] indices@[q] < self.held().len(),
                v@ == gather_chests(self.held(), indices@.take(n as int), r),
            decreases indices@.len() - n,
        {
            let chunk = self.chunks.chunk(indices[n]);
            proof {
                assert(indices@.take(n + 1).drop_last() =~= indices@.take(n as int));
            }
            let ghost v0 = v@;
            let mut q: usize = 0;
            while q < chunk.chests.len()
                invariant
                    q <= chunk.chests@.len(),
                    v@ == v0 + chests_within(chunk.chests@.take(q as int), r),
                decreases chunk.chests@.len() - q,
            {
                let c = chunk.chests[q];
                proof {
                    assert(chunk.chests@.take(q + 1).drop_last() =~= chunk.chests@.take(q as int));
                }
                if r.contains(c.position) {
                    v.push(c);
                }
                proof {
                    assert(v@ =~= v0 + chests_within(chunk.chests@.take(q + 1), r));
                }
                q = q + 1;
            }
            proof {
                assert(chunk.chests@.take(q as int) =~= chunk.chests@);
            }
            n = n + 1;
        }
        proof {
            assert(indices@.take(n as int) =~= indices@);
        }
        Ok(v)
    }
}

/// Appends the positions of `src` that `r` contains.
fn push_contained(src: &Vec<Point>, r: Rect, v: &mut Vec<Point>)
    ensures
        final(v)@ == old(v)@ + filter_in(src@, r),
{
    let ghost v0 = v@;
    let mut q: usize = 0;
    while q < src.len()
        invariant
            q <= src@.len(),
            v0 == old(v)@,
            v@ == v0 + filter_in(src@.take(q as int), r),
        decreases src@.len() - q,
    {
        let p = src[q];
        proof {
            assert(src@.take(q + 1).drop_last() =~= src@.take(q as int));
        }
        if r.contains(p) {
            v.push(p);
        }
        proof {
            assert(v@ =~= v0 + filter_in(src@.take(q + 1), r));
        }
        q = q + 1;
    }
    proof {
        assert(src@.take(q as int) =~= src@);
    }
}

} // verus!
