//! Features inside rooms: reward caches, spawners and decorations.
use vstd::prelude::*;
use crate::chunk::{local_point_ok, to_world, world_point_ok, Chest, Chunk};
use crate::coord::Coord;
use crate::geometry::{
    distance_squared, point, squared_distance, taxicab, taxicab_distance, Point, POINT_SCALE,
};
use crate::random::{binomial, scaled_draw, step, Random};
use crate::rooms::{room_center, room_ok, Room, STARTING_ROOM_SHIFT};

verus! {

/// Attempts at finding a well-spaced position for one feature.
pub const MAX_FEATURE_ATTEMPTS: usize = 10;

/// Room side length per spawner.
pub const SIDE_LENGTH_PER_SPAWNER: i32 = 4;

/// Chance per floor tile of a decoration, as a fraction.
pub const DECORATION_NUM: u32 = 33;

pub const DECORATION_DEN: u32 = 1000;

/// Smallest distance between reward caches of a chunk, in thousandths of a
/// tile.
pub const CHEST_DISTANCE: i64 = 10_000;

/// The longer side of a room.
pub open spec fn max_side(r: Room) -> int {
    if r.width >= r.height { r.width as int } else { r.height as int }
}

/// Positions, in thousandths of a tile, at least three quarters of a tile
/// inside the room.
pub open spec fn in_feature_area(r: Room, p: Point) -> bool {
    &&& r.x * POINT_SCALE + 750 <= p.x <= (r.x + r.width) * POINT_SCALE - 750
    &&& r.y * POINT_SCALE + 750 <= p.y <= (r.y + r.height) * POINT_SCALE - 750
}

/// Whether `p` keeps the spacing required of the next feature of a room
/// that holds `placed`: a taxicab distance of at least the room's longer
/// side, divided by one more than the number placed, times three quarters.
pub open spec fn well_spaced(placed: Seq<Point>, r: Room, p: Point) -> bool {
    forall|k: int|
        0 <= k < placed.len() ==> taxicab(p, #[trigger] placed[k]) * 4 * (placed.len() + 1) >= max_side(
            r,
        ) * 3 * POINT_SCALE
}

/// Where, in the world, the center tile of a room of chunk `c` begins.
pub open spec fn room_world_corner(c: Coord, r: Room) -> Point {
    to_world(
        c,
        Point { x: (room_center(r).x * POINT_SCALE) as i64, y: (room_center(r).y * POINT_SCALE) as i64 },
    )
}

/// The spawner of the starting room: two tiles right of its center.
pub open spec fn starting_spawner(r: Room) -> Point {
    Point {
        x: (room_center(r).x * POINT_SCALE + 500 + STARTING_ROOM_SHIFT * POINT_SCALE) as i64,
        y: (room_center(r).y * POINT_SCALE + 500) as i64,
    }
}

/// Local feature positions that lie within the chunk.
pub open spec fn points_ok(ps: Seq<Point>) -> bool {
    forall|k: int| 0 <= k < ps.len() ==> local_point_ok(#[trigger] ps[k])
}

/// The position drawn for a feature of room `r` from state `s`.
pub open spec fn feature_point(s: u32, r: Room) -> Point {
    Point {
        x: scaled_draw(s, r.x * POINT_SCALE + 750, (r.x + r.width) * POINT_SCALE - 750) as i64,
        y: scaled_draw(step(s), r.y * POINT_SCALE + 750, (r.y + r.height) * POINT_SCALE - 750) as i64,
    }
}

/// Up to `attempts` draws of a position in room `r` from state `s`: the
/// first that keeps its distance from `placed`, with the state after.
pub open spec fn find_position(s: u32, r: Room, placed: Seq<Point>, attempts: nat) -> (u32, Option<Point>)
    decreases attempts,
{
    if attempts == 0 {
        (s, None)
    } else {
        let p = feature_point(s, r);
        if well_spaced(placed, r, p) {
            (step(step(s)), Some(p))
        } else {
            find_position(step(step(s)), r, placed, (attempts - 1) as nat)
        }
    }
}

/// `placed` with `found` added, if any.
pub open spec fn with_found(placed: Seq<Point>, found: Option<Point>) -> Seq<Point> {
    match found {
        Some(p) => placed.push(p),
        None => placed,
    }
}

/// Whether a reward cache may go in room `r` of chunk `c` holding `chests`.
pub open spec fn chest_allowed(chests: Seq<Chest>, c: Coord, r: Room) -> bool {
    !r.is_starting && forall|k: int|
        0 <= k < chests.len() ==> distance_squared(room_world_corner(c, r), (#[trigger] chests[k]).position)
            >= CHEST_DISTANCE * CHEST_DISTANCE
}

/// Features of the chunk being built: spawners, reward caches,
/// decorations (world positions), the random state and the positions
/// placed in the current room (local positions).
pub type Features = (Seq<Point>, Seq<Chest>, Seq<Point>, u32, Seq<Point>);

/// The features of chunk `ch`, with state `s` and positions `placed`.
pub open spec fn features_of(ch: Chunk, s: u32, placed: Seq<Point>) -> Features {
    (ch.spawners@, ch.chests@, ch.decorations@, s, placed)
}

/// The features and state of a chunk.
pub open spec fn featured(ch: Chunk, s: u32) -> (Seq<Point>, Seq<Chest>, Seq<Point>, u32) {
    (ch.spawners@, ch.chests@, ch.decorations@, s)
}

/// The features and state after placing those of the first `n` rooms of
/// `rooms` in chunk `c` that holds the features `f`, drawing from state `s`.
pub open spec fn featured_at(
    c: Coord,
    f: (Seq<Point>, Seq<Chest>, Seq<Point>),
    s: u32,
    rooms: Seq<Room>,
    n: int,
) -> (Seq<Point>, Seq<Chest>, Seq<Point>, u32) {
    let g = feature_fold((f.0, f.1, f.2, s, seq![]), c, rooms, n);
    (g.0, g.1, g.2, g.3)
}

/// The features and state after placing those of `rooms` in chunk `c` that
/// holds the features `f`, drawing from state `s`.
pub open spec fn featured_from(c: Coord, f: (Seq<Point>, Seq<Chest>, Seq<Point>), s: u32, rooms: Seq<Room>) -> (
    Seq<Point>,
    Seq<Chest>,
    Seq<Point>,
    u32,
) {
    featured_at(c, f, s, rooms, rooms.len() as int)
}

/// The features of a chunk.
pub open spec fn features(ch: Chunk) -> (Seq<Point>, Seq<Chest>, Seq<Point>) {
    (ch.spawners@, ch.chests@, ch.decorations@)
}

/// The reward cache step for room `r` of chunk `c`.
pub open spec fn chest_step(f: Features, c: Coord, r: Room) -> Features {
    if !chest_allowed(f.1, c, r) {
        f
    } else {
        let (s, found) = find_position(f.3, r, f.4, MAX_FEATURE_ATTEMPTS as nat);
        let chests = match found {
            Some(p) => f.1.push(Chest { position: to_world(c, p) }),
            None => f.1,
        };
        (f.0, chests, f.2, s, with_found(f.4, found))
    }
}

/// `n` spawner attempts in room `r` of chunk `c`.
pub open spec fn spawner_steps(f: Features, c: Coord, r: Room, n: int) -> Features
    decreases n,
{
    if n <= 0 {
        f
    } else {
        let g = spawner_steps(f, c, r, n - 1);
        let (s, found) = find_position(g.3, r, g.4, MAX_FEATURE_ATTEMPTS as nat);
        let spawners = match found {
            Some(p) => g.0.push(to_world(c, p)),
            None => g.0,
        };
        (spawners, g.1, g.2, s, with_found(g.4, found))
    }
}

/// `n` decoration attempts in room `r` of chunk `c`.
pub open spec fn decoration_steps(f: Features, c: Coord, r: Room, n: int) -> Features
    decreases n,
{
    if n <= 0 {
        f
    } else {
        let g = decoration_steps(f, c, r, n - 1);
        let (s, found) = find_position(g.3, r, g.4, MAX_FEATURE_ATTEMPTS as nat);
        let decorations = match found {
            Some(p) => g.2.push(to_world(c, p)),
            None => g.2,
        };
        (g.0, g.1, decorations, s, with_found(g.4, found))
    }
}

/// The spawner step for room `r` of chunk `c`.
pub open spec fn spawner_step(f: Features, c: Coord, r: Room) -> Features {
    if r.is_starting {
        (f.0.push(to_world(c, starting_spawner(r))), f.1, f.2, f.3, f.4.push(starting_spawner(r)))
    } else {
        spawner_steps(f, c, r, max_side(r) / SIDE_LENGTH_PER_SPAWNER as int)
    }
}

/// The decoration step for room `r` of chunk `c`.
pub open spec fn decoration_step(f: Features, c: Coord, r: Room) -> Features {
    let (s, count) = binomial(f.3, (r.width * r.height) as nat, DECORATION_NUM, DECORATION_DEN);
    decoration_steps((f.0, f.1, f.2, s, f.4), c, r, count as int)
}

/// The features of the first `n` rooms of chunk `c`.
pub open spec fn feature_fold(f: Features, c: Coord, rooms: Seq<Room>, n: int) -> Features
    decreases n,
{
    if n <= 0 {
        f
    } else {
        let g = feature_fold(f, c, rooms, n - 1);
        let r = rooms[n - 1];
        decoration_step(spawner_step(chest_step((g.0, g.1, g.2, g.3, seq![]), c, r), c, r), c, r)
    }
}

impl Room {
    /// A random position for a feature, three quarters of a tile or more
    /// inside the room.
    pub fn feature_position(&self, random: &mut Random) -> (r: Point)
        requires
            room_ok(*self),
        ensures
            final(random).state == step(step(old(random).state)),
            in_feature_area(*self, r),
            r.x == scaled_draw(old(random).state, self.x * POINT_SCALE + 750, (self.x + self.width) * POINT_SCALE - 750),
            r.y == scaled_draw(step(old(random).state), self.y * POINT_SCALE + 750, (self.y + self.height) * POINT_SCALE - 750),
    {
        let min_x = self.x as i64 * POINT_SCALE + 750;
        let max_x = (self.x + self.width) as i64 * POINT_SCALE - 750;
        let min_y = self.y as i64 * POINT_SCALE + 750;
        let max_y = (self.y + self.height) as i64 * POINT_SCALE - 750;
        let x = random.next_scaled_in(min_x, max_x);
        let y = random.next_scaled_in(min_y, max_y);
        point(x, y)
    }
}

impl Chunk {
    /// A position inside `room` that keeps its distance from the features
    /// already placed there; recorded in `feature_positions` when found.
    pub fn available_feature_position(
        &self,
        random: &mut Random,
        room: &Room,
        feature_positions: &mut Vec<Point>,
    ) -> (r: Option<Point>)
        requires
            room_ok(*room),
            points_ok(old(feature_positions)@),
            old(feature_positions)@.len() < 1_000_000,
        ensures
            points_ok(final(feature_positions)@),
            r matches Some(p) ==> {
                &&& final(feature_positions)@ == old(feature_positions)@.push(p)
                &&& in_feature_area(*room, p)
                &&& well_spaced(old(feature_positions)@, *room, p)
            },
            r is None ==> final(feature_positions)@ == old(feature_positions)@,
            (final(random).state, r) == find_position(
                old(random).state,
                *room,
                old(feature_positions)@,
                MAX_FEATURE_ATTEMPTS as nat,
            ),
    {
        let room_length: i64 = if room.width >= room.height { room.width as i64 } else { room.height as i64 };
        let placed = feature_positions.len() as i64;
        let threshold = room_length * 3 * POINT_SCALE;
        let mut attempt: usize = 0;
        while attempt < MAX_FEATURE_ATTEMPTS
            invariant
                room_ok(*room),
                points_ok(feature_positions@),
                feature_positions@ == old(feature_positions)@,
                placed == feature_positions@.len(),
                placed < 1_000_000,
                room_length == max_side(*room),
                threshold == max_side(*room) * 3 * POINT_SCALE,
                attempt <= MAX_FEATURE_ATTEMPTS,
                find_position(old(random).state, *room, old(feature_positions)@, MAX_FEATURE_ATTEMPTS as nat)
                    == find_position(
                    random.state,
                    *room,
                    old(feature_positions)@,
                    (MAX_FEATURE_ATTEMPTS - attempt) as nat,
                ),
            decreases MAX_FEATURE_ATTEMPTS - attempt,
        {
            let position = room.feature_position(random);
            let mut spaced = true;
            let mut k: usize = 0;
            while k < feature_positions.len()
                invariant
                    k <= feature_positions@.len(),
                    points_ok(feature_positions@),
                    placed == feature_positions@.len(),
                    placed < 1_000_000,
                    room_ok(*room),
                    in_feature_area(*room, position),
                    threshold == max_side(*room) * 3 * POINT_SCALE,
                    spaced <==> forall|j: int|
                        0 <= j < k ==> taxicab(position, #[trigger] feature_positions@[j]) * 4 * (placed
                            + 1) >= threshold,
                decreases feature_positions@.len() - k,
            {
                let other = feature_positions[k];
                proof {
                    assert(local_point_ok(feature_positions@[k as int]));
                }
                let d = taxicab_distance(position, other);
                proof {
                    assert(0 <= d <= 200_000);
                    assert(d * 4 * (placed + 1) <= 200_000 * 4 * 1_000_001) by (nonlinear_arith)
                        requires
                            0 <= d <= 200_000,
                            0 <= placed < 1_000_000,
                    ;
                }
                if d * 4 * (placed + 1) < threshold {
                    spaced = false;
                }
                k = k + 1;
            }
            if spaced {
                feature_positions.push(position);
                return Some(position);
            }
            attempt = attempt + 1;
        }
        None
    }

    /// Whether a reward cache may go in `room`: never in the starting room,
    /// and not within the cache distance of a cache already in the chunk.
    pub fn can_add_chest(&self, room: &Room) -> (r: bool)
        requires
            self.wf(),
            room_ok(*room),
        ensures
            r == (!room.is_starting && forall|k: int|
                0 <= k < self.chests@.len() ==> distance_squared(
                    room_world_corner(self.coord, *room),
                    (#[trigger] self.chests@[k]).position,
                ) >= CHEST_DISTANCE * CHEST_DISTANCE),
    {
        if room.is_starting {
            return false;
        }
        let center = room.center();
        let offset = self.chunk_start();
        let position = point(
            center.x as i64 * POINT_SCALE + offset.x,
            center.y as i64 * POINT_SCALE + offset.y,
        );
        let mut k: usize = 0;
        while k < self.chests.len()
            invariant
                self.wf(),
                room_ok(*room),
                !room.is_starting,
                position == room_world_corner(self.coord, *room),
                k <= self.chests@.len(),
                forall|j: int|
                    0 <= j < k ==> distance_squared(position, (#[trigger] self.chests@[j]).position)
                        >= CHEST_DISTANCE * CHEST_DISTANCE,
            decreases self.chests@.len() - k,
        {
            proof {
                assert(world_point_ok(self.chests@[k as int].position));
            }
            if squared_distance(position, self.chests[k].position) < (CHEST_DISTANCE * CHEST_DISTANCE) as i128 {
                return false;
            }
            k = k + 1;
        }
        true
    }

    /// A reward cache in `room`, where allowed and where a spaced position
    /// is found.
    pub fn add_chest(&mut self, random: &mut Random, room: &Room, feature_positions: &mut Vec<Point>)
        requires
            old(self).wf(),
            room_ok(*room),
            points_ok(old(feature_positions)@),
            old(feature_positions)@.len() < 1_000_000,
        ensures
            final(self).wf(),
            final(self).coord == old(self).coord,
            final(self).tiles == old(self).tiles,
            final(self).spawners == old(self).spawners,
            final(self).decorations == old(self).decorations,
            points_ok(final(feature_positions)@),
            final(feature_positions)@.len() <= old(feature_positions)@.len() + 1,
            room.is_starting ==> final(self).chests == old(self).chests,
            features_of(*final(self), final(random).state, final(feature_positions)@) == chest_step(
                features_of(*old(self), old(random).state, old(feature_positions)@),
                old(self).coord,
                *room,
            ),
    {
        if !self.can_add_chest(room) {
            return;
        }
        if let Some(position) = self.available_feature_position(random, room, feature_positions) {
            self.create_chest(position);
        }
    }

    /// Spawners for `room`: one beside the center of the starting room,
    /// otherwise one per four tiles of the longer side, where a spaced
    /// position is found.
    pub fn add_spawners(&mut self, random: &mut Random, room: &Room, feature_positions: &mut Vec<Point>)
        requires
            old(self).wf(),
            room_ok(*room),
            points_ok(old(feature_positions)@),
            old(feature_positions)@.len() < 1_000,
        ensures
            final(self).wf(),
            final(self).coord == old(self).coord,
            final(self).tiles == old(self).tiles,
            final(self).chests == old(self).chests,
            final(self).decorations == old(self).decorations,
            points_ok(final(feature_positions)@),
            final(feature_positions)@.len() <= old(feature_positions)@.len() + 3,
            room.is_starting ==> final(self).spawners@ == old(self).spawners@.push(
                to_world(old(self).coord, starting_spawner(*room)),
            ),
            features_of(*final(self), final(random).state, final(feature_positions)@) == spawner_step(
                features_of(*old(self), old(random).state, old(feature_positions)@),
                old(self).coord,
                *room,
            ),
    {
        if room.is_starting {
            let center = room.center();
            let position = point(
                center.x as i64 * POINT_SCALE + 500 + STARTING_ROOM_SHIFT as i64 * POINT_SCALE,
                center.y as i64 * POINT_SCALE + 500,
            );
            feature_positions.push(position);
            self.create_spawner(position);
            return;
        }
        let longer = if room.width >= room.height { room.width } else { room.height };
        let count = longer / SIDE_LENGTH_PER_SPAWNER;
        let ghost start_len = feature_positions@.len();
        let mut i: i32 = 0;
        while i < count
            invariant
                self.wf(),
                self.coord == old(self).coord,
                self.tiles == old(self).tiles,
                self.chests == old(self).chests,
                self.decorations == old(self).decorations,
                room_ok(*room),
                0 <= count <= 3,
                0 <= i <= count,
                start_len == old(feature_positions)@.len(),
                points_ok(feature_positions@),
                feature_positions@.len() <= start_len + i,
                start_len < 1_000,
                count == max_side(*room) / SIDE_LENGTH_PER_SPAWNER as int,
                features_of(*self, random.state, feature_positions@) == spawner_steps(
                    features_of(*old(self), old(random).state, old(feature_positions)@),
                    old(self).coord,
                    *room,
                    i as int,
                ),
            decreases count - i,
        {
            if let Some(position) = self.available_feature_position(random, room, feature_positions) {
                self.create_spawner(position);
            }
            i = i + 1;
        }
    }

    /// Decorations for `room`: a binomial count over its tiles at a low
    /// chance per tile, each where a spaced position is found.
    pub fn add_decorations(&mut self, random: &mut Random, room: &Room, feature_positions: &mut Vec<Point>)
        requires
            old(self).wf(),
            room_ok(*room),
            points_ok(old(feature_positions)@),
            old(feature_positions)@.len() < 1_000,
        ensures
            final(self).wf(),
            final(self).coord == old(self).coord,
            final(self).tiles == old(self).tiles,
            final(self).spawners == old(self).spawners,
            final(self).chests == old(self).chests,
            points_ok(final(feature_positions)@),
            features_of(*final(self), final(random).state, final(feature_positions)@) == decoration_step(
                features_of(*old(self), old(random).state, old(feature_positions)@),
                old(self).coord,
                *room,
            ),
    {
        proof {
            assert(room.width * room.height <= 144) by (nonlinear_arith)
                requires
                    0 <= room.width <= 12,
                    0 <= room.height <= 12,
            ;
            assert(room.width * room.height >= 0) by (nonlinear_arith)
                requires
                    0 <= room.width,
                    0 <= room.height,
            ;
        }
        let size = (room.width * room.height) as usize;
        let count = random.next_binomial(size, DECORATION_NUM, DECORATION_DEN);
        let ghost start_len = feature_positions@.len();
        let ghost f0 = (
            old(self).spawners@,
            old(self).chests@,
            old(self).decorations@,
            random.state,
            old(feature_positions)@,
        );
        let mut i: usize = 0;
        while i < count
            invariant
                self.wf(),
                self.coord == old(self).coord,
                self.tiles == old(self).tiles,
                self.spawners == old(self).spawners,
                self.chests == old(self).chests,
                room_ok(*room),
                count <= 144,
                i <= count,
                points_ok(feature_positions@),
                feature_positions@.len() <= start_len + i,
                start_len < 1_000,
                features_of(*self, random.state, feature_positions@) == decoration_steps(
                    f0,
                    old(self).coord,
                    *room,
                    i as int,
                ),
            decreases count - i,
        {
            if let Some(position) = self.available_feature_position(random, room, feature_positions) {
                self.create_decoration(position);
            }
            i = i + 1;
        }
    }

    /// The features of every room: a reward cache, spawners, decorations.
    pub fn add_features(&mut self, random: &mut Random, rooms: &Vec<Room>)
        requires
            old(self).wf(),
            forall|k: int| 0 <= k < rooms@.len() ==> room_ok(#[trigger] rooms@[k]),
        ensures
            final(self).wf(),
            final(self).coord == old(self).coord,
            final(self).tiles == old(self).tiles,
            featured(*final(self), final(random).state) == featured_from(
                old(self).coord,
                features(*old(self)),
                old(random).state,
                rooms@,
            ),
    {
        let mut k: usize = 0;
        while k < rooms.len()
            invariant
                self.wf(),
                self.coord == old(self).coord,
                self.tiles == old(self).tiles,
                forall|j: int| 0 <= j < rooms@.len() ==> room_ok(#[trigger] rooms@[j]),
                k <= rooms@.len(),
                featured(*self, random.state) == featured_at(
                    old(self).coord,
                    features(*old(self)),
                    old(random).state,
                    rooms@,
                    k as int,
                ),
            decreases rooms@.len() - k,
        {
            let room = rooms[k];
            let mut feature_positions: Vec<Point> = Vec::new();
            self.add_chest(random, &room, &mut feature_positions);
            self.add_spawners(random, &room, &mut feature_positions);
            self.add_decorations(random, &room, &mut feature_positions);
            k = k + 1;
        }
    }
}

} // verus!
