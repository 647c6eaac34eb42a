//! Rooms: the rectangles of floor that a chunk is built around.
use vstd::prelude::*;
use crate::chunk::{CHUNK_SIZE, CHUNK_SIZE_I32};
use crate::coord::{abs, coord, Coord};
use crate::random::{binomial_between, draw, step, Random};

verus! {

/// Shortest room side.
pub const MIN_ROOM_SIZE: usize = 3;

/// Mean room side, as the fraction `AVERAGE_ROOM_NUM / AVERAGE_ROOM_DEN`.
pub const AVERAGE_ROOM_NUM: u32 = 17;

pub const AVERAGE_ROOM_DEN: u32 = 4;

/// Bound on room sides: random sides stay below it.
pub const MAX_ROOM_SIZE: usize = 12;

/// How far right of the chunk's center the starting room and its spawner
/// are shifted.
pub const STARTING_ROOM_SHIFT: i32 = 2;


/// A rectangle of floor placed while generating one chunk.
#[derive(Copy, Clone, Debug, PartialEq, Eq, Structural)]
pub struct Room {
    pub x: i32,
    pub y: i32,
    pub width: i32,
    pub height: i32,
    pub is_starting: bool,
}

/// Sides between three and twelve tiles, with a tile of wall to spare on
/// the upper sides of the chunk.
pub open spec fn room_ok(r: Room) -> bool {
    &&& 3 <= r.width <= 12
    &&& 3 <= r.height <= 12
    &&& 0 <= r.x
    &&& 0 <= r.y
    &&& r.x + r.width <= 48
    &&& r.y + r.height <= 48
}

/// The starting room: 7 by 5, near the chunk's center, shifted right.
pub open spec fn starting_room() -> Room {
    Room { x: 24, y: 23, width: 7, height: 5, is_starting: true }
}

/// The tile at the center of a room.
pub open spec fn room_center(r: Room) -> Coord {
    Coord { x: (r.x + r.width / 2) as i32, y: (r.y + r.height / 2) as i32 }
}

/// Gap between the spans `a_min..=a_max` and `b_min..=b_max` (zero when
/// they touch or overlap).
pub open spec fn axis_gap(a_min: int, a_max: int, b_min: int, b_max: int) -> nat {
    if a_max >= b_min && a_min <= b_max {
        0
    } else {
        let d1 = abs(a_max - b_min);
        let d2 = abs(a_min - b_max);
        if d1 <= d2 { d1 } else { d2 }
    }
}

/// Manhattan gap between two rooms, their far edges included.
pub open spec fn room_gap(a: Room, b: Room) -> nat {
    axis_gap(a.x as int, a.x + a.width, b.x as int, b.x + b.width) + axis_gap(
        a.y as int,
        a.y + a.height,
        b.y as int,
        b.y + b.height,
    )
}

/// Side lengths drawn from state `s`: the final state, the width, the height.
pub open spec fn dimensions_spec(s: u32) -> (u32, int, int) {
    let w = binomial_between(s, 3, AVERAGE_ROOM_NUM, AVERAGE_ROOM_DEN, 12);
    let min_h = if w.1 >= 5 { (w.1 - 2) as nat } else { 3nat };
    let max_h = if w.1 + 3 <= 12 { w.1 + 3 } else { 12nat };
    let h = binomial_between(w.0, min_h, w.1 as u32, 1, max_h);
    (h.0, w.1 as int, h.1 as int)
}

/// A room drawn from state `s`: the final state and the room.
pub open spec fn random_room_spec(s: u32) -> (u32, Room) {
    let d = dimensions_spec(s);
    let x = draw(d.0) % ((49 - d.1) as u32);
    let y = draw(step(d.0)) % ((49 - d.2) as u32);
    (
        step(step(d.0)),
        Room { x: x as i32, y: y as i32, width: d.1 as i32, height: d.2 as i32, is_starting: false },
    )
}

impl Room {
    /// The starting room of chunk (0, 0).
    pub fn starting() -> (r: Self)
        ensures
            r == starting_room(),
            room_ok(r),
    {
        let (width, height): (i32, i32) = (7, 5);
        let x = CHUNK_SIZE_I32 / 2 - width / 2 + STARTING_ROOM_SHIFT;
        let y = CHUNK_SIZE_I32 / 2 - height / 2;
        Self { is_starting: true, width, height, x, y }
    }

    /// A room of random size at a random place in the chunk.
    pub fn random(random: &mut Random) -> (r: Self)
        ensures
            (final(random).state, r) == random_room_spec(old(random).state),
            room_ok(r),
            !r.is_starting,
    {
        let (width, height) = Self::dimensions(random);
        let x_range = 0..(CHUNK_SIZE as u32 - width as u32 - 1);
        let y_range = 0..(CHUNK_SIZE as u32 - height as u32 - 1);
        let x = random.next_u32_in(&x_range) as i32;
        let y = random.next_u32_in(&y_range) as i32;
        Self { is_starting: false, x, y, width, height }
    }

    /// Random side lengths: the width near four, the height within two of it.
    pub fn dimensions(random: &mut Random) -> (r: (i32, i32))
        ensures
            (final(random).state, r.0 as int, r.1 as int) == dimensions_spec(old(random).state),
            3 <= r.0 <= 12,
            3 <= r.1 <= 12,
    {
        let x = random.next_binomial_between(
            MIN_ROOM_SIZE,
            AVERAGE_ROOM_NUM,
            AVERAGE_ROOM_DEN,
            MAX_ROOM_SIZE,
        );
        let min_y = if x >= 5 { x - 2 } else { MIN_ROOM_SIZE };
        let max_y = if x + 3 <= MAX_ROOM_SIZE { x + 3 } else { MAX_ROOM_SIZE };
        let y = random.next_binomial_between(min_y, x as u32, 1, max_y);
        (x as i32, y as i32)
    }

    /// The tile at the room's center.
    pub fn center(&self) -> (r: Coord)
        requires
            room_ok(*self),
        ensures
            r == room_center(*self),
    {
        coord(self.x + self.width / 2, self.y + self.height / 2)
    }

    /// The lower left corner.
    pub fn min_coord(&self) -> (r: Coord)
        ensures
            r.x == self.x,
            r.y == self.y,
    {
        coord(self.x, self.y)
    }

    /// The corner just past the upper right tile.
    pub fn max_coord(&self) -> (r: Coord)
        requires
            room_ok(*self),
        ensures
            r.x == self.x + self.width,
            r.y == self.y + self.height,
    {
        coord(self.x + self.width, self.y + self.height)
    }

    /// Manhattan gap to another room, counted between their far edges.
    pub fn distance(self, other: Room) -> (r: u32)
        requires
            room_ok(self),
            room_ok(other),
        ensures
            r == room_gap(self, other),
    {
        let x_touches = self.x + self.width >= other.x && self.x <= other.x + other.width;
        let y_touches = self.y + self.height >= other.y && self.y <= other.y + other.height;
        let x_distance: u32 = if x_touches {
            0
        } else {
            let d1 = gap(self.x + self.width, other.x);
            let d2 = gap(self.x, other.x + other.width);
            if d1 <= d2 { d1 } else { d2 }
        };
        let y_distance: u32 = if y_touches {
            0
        } else {
            let d1 = gap(self.y + self.height, other.y);
            let d2 = gap(self.y, other.y + other.height);
            if d1 <= d2 { d1 } else { d2 }
        };
        x_distance + y_distance
    }
}

/// `|a - b|` for small coordinates.
fn gap(a: i32, b: i32) -> (r: u32)
    requires
        -100 <= a <= 100,
        -100 <= b <= 100,
    ensures
        r == abs(a - b),
{
    if a >= b { (a - b) as u32 } else { (b - a) as u32 }
}

} // verus!
