//! Integer grid coordinates.
use vstd::prelude::*;

verus! {

/// Builds the coordinate `(x, y)`.
pub fn coord(x: i32, y: i32) -> (r: Coord)
    ensures
        r.x == x,
        r.y == y,
{
    Coord { x, y }
}

/// An integer position on the tile grid.
#[derive(Copy, Clone, Debug, Hash, PartialEq, Eq, Structural)]
pub struct Coord {
    pub x: i32,
    pub y: i32,
}

/// Absolute value of an integer.
pub open spec fn abs(v: int) -> nat {
    if v < 0 { (-v) as nat } else { v as nat }
}

/// Whether `v` fits in an `i32`.
pub open spec fn fits_i32(v: int) -> bool {
    i32::MIN <= v <= i32::MAX
}

/// Manhattan distance between two coordinates.
pub open spec fn manhattan(a: Coord, b: Coord) -> nat {
    abs(a.x - b.x) + abs(a.y - b.y)
}

/// Whether `a` and `b` differ by one step along exactly one axis.
pub open spec fn orthogonal_neighbours(a: Coord, b: Coord) -> bool {
    manhattan(a, b) == 1
}

/// Whether `c` lies in the box spanned by `min` and `max`, bounds included.
pub open spec fn in_box(c: Coord, min: Coord, max: Coord) -> bool {
    min.x <= c.x <= max.x && min.y <= c.y <= max.y
}

/// The `i`-th coordinate of the box `min..=max`, walked row by row.
pub open spec fn box_at(min: Coord, max: Coord, i: int) -> Coord {
    let w = max.x - min.x + 1;
    Coord { x: (min.x + i % w) as i32, y: (min.y + i / w) as i32 }
}

/// Number of coordinates in the box `min..=max` (zero when it is empty).
pub open spec fn box_len(min: Coord, max: Coord) -> nat {
    if min.x <= max.x && min.y <= max.y {
        ((max.x - min.x + 1) * (max.y - min.y + 1)) as nat
    } else {
        0
    }
}

impl Coord {
    /// The horizontal component.
    pub fn x(&self) -> (r: i32)
        ensures
            r == self.x,
    {
        self.x
    }

    /// The vertical component.
    pub fn y(&self) -> (r: i32)
        ensures
            r == self.y,
    {
        self.y
    }

    /// Manhattan distance to `other`.
    pub fn distance(self, other: Coord) -> (r: u32)
        requires
            manhattan(self, other) <= u32::MAX,
        ensures
            r == manhattan(self, other),
    {
        let dx: u32 = if self.x >= other.x {
            (self.x as i64 - other.x as i64) as u32
        } else {
            (other.x as i64 - self.x as i64) as u32
        };
        let dy: u32 = if self.y >= other.y {
            (self.y as i64 - other.y as i64) as u32
        } else {
            (other.y as i64 - self.y as i64) as u32
        };
        dx + dy
    }

    /// Both components divided by `value`, rounding towards negative
    /// infinity for a positive `value` (Euclidean division).
    pub fn div_euclid(&self, value: i32) -> (r: Coord)
        requires
            value != 0,
            fits_i32(self.x as int / value as int),
            fits_i32(self.y as int / value as int),
        ensures
            r.x == self.x as int / value as int,
            r.y == self.y as int / value as int,
    {
        let x = self.x.checked_div_euclid(value).unwrap();
        let y = self.y.checked_div_euclid(value).unwrap();
        coord(x, y)
    }

    /// Both components reduced modulo `value` into `0..|value|`.
    pub fn rem_euclid(&self, value: i32) -> (r: Coord)
        requires
            value != 0,
            !(value == -1 && (self.x == i32::MIN || self.y == i32::MIN)),
        ensures
            r.x == self.x as int % value as int,
            r.y == self.y as int % value as int,
    {
        let x = self.x.checked_rem_euclid(value).unwrap();
        let y = self.y.checked_rem_euclid(value).unwrap();
        coord(x, y)
    }

    /// Splits the coordinate into the index of the `size`-wide cell holding
    /// it and the position inside that cell.
    pub fn chunk(&self, size: i32) -> (r: (Coord, Coord))
        requires
            size > 0,
        ensures
            r.0.x == self.x as int / size as int,
            r.0.y == self.y as int / size as int,
            r.1.x == self.x as int % size as int,
            r.1.y == self.y as int % size as int,
            0 <= r.1.x < size,
            0 <= r.1.y < size,
            self.x == r.0.x * size + r.1.x,
            self.y == r.0.y * size + r.1.y,
    {
        proof {
            lemma_div_fits(self.x as int, size as int);
            lemma_div_fits(self.y as int, size as int);
            vstd::arithmetic::div_mod::lemma_fundamental_div_mod(self.x as int, size as int);
            vstd::arithmetic::div_mod::lemma_fundamental_div_mod(self.y as int, size as int);
        }
        (self.div_euclid(size), self.rem_euclid(size))
    }

    /// Componentwise minimum.
    pub fn min(self, other: Coord) -> (r: Coord)
        ensures
            r.x == if self.x <= other.x { self.x } else { other.x },
            r.y == if self.y <= other.y { self.y } else { other.y },
    {
        coord(
            if self.x <= other.x { self.x } else { other.x },
            if self.y <= other.y { self.y } else { other.y },
        )
    }

    /// Componentwise maximum.
    pub fn max(self, other: Coord) -> (r: Coord)
        ensures
            r.x == if self.x >= other.x { self.x } else { other.x },
            r.y == if self.y >= other.y { self.y } else { other.y },
    {
        coord(
            if self.x >= other.x { self.x } else { other.x },
            if self.y >= other.y { self.y } else { other.y },
        )
    }

    /// Every coordinate of the box `min..=max`, row by row from the bottom,
    /// left to right inside a row.
    pub fn between_inclusive(min: Coord, max: Coord) -> (r: Vec<Coord>)
        requires
            box_len(min, max) <= usize::MAX,
        ensures
            r@.len() == box_len(min, max),
            forall|i: int| 0 <= i < r@.len() ==> r@[i] == box_at(min, max, i),
            forall|i: int| 0 <= i < r@.len() ==> in_box(#[trigger] r@[i], min, max),
    {
        let mut r: Vec<Coord> = Vec::new();
        if min.x > max.x || min.y > max.y {
            return r;
        }
        let ghost w = max.x - min.x + 1;
        let mut y: i64 = min.y as i64;
        while y <= max.y as i64
            invariant
                min.x <= max.x,
                min.y <= y <= max.y + 1,
                w == max.x - min.x + 1,
                box_len(min, max) <= usize::MAX,
                r@.len() == (y - min.y) * w,
                forall|i: int| 0 <= i < r@.len() ==> r@[i] == box_at(min, max, i),
                forall|i: int| 0 <= i < r@.len() ==> in_box(#[trigger] r@[i], min, max),
            decreases max.y + 1 - y,
        {
            let mut x: i64 = min.x as i64;
            while x <= max.x as i64
                invariant
                    min.x <= x <= max.x + 1,
                    min.y <= y <= max.y,
                    w == max.x - min.x + 1,
                    box_len(min, max) <= usize::MAX,
                    r@.len() == (y - min.y) * w + (x - min.x),
                    forall|i: int| 0 <= i < r@.len() ==> r@[i] == box_at(min, max, i),
                    forall|i: int| 0 <= i < r@.len() ==> in_box(#[trigger] r@[i], min, max),
                decreases max.x + 1 - x,
            {
                proof {
                    let i = (y - min.y) * w + (x - min.x);
                    lemma_row_index(y - min.y, x - min.x, w);
                    assert(box_len(min, max) == w * (max.y - min.y + 1)) by (nonlinear_arith)
                        requires
                            min.x <= max.x,
                            min.y <= max.y,
                            w == max.x - min.x + 1,
                    ;
                    assert(i < box_len(min, max)) by (nonlinear_arith)
                        requires
                            i == (y - min.y) * w + (x - min.x),
                            0 <= x - min.x < w,
                            0 <= y - min.y <= max.y - min.y,
                            box_len(min, max) == w * (max.y - min.y + 1),
                    ;
                }
                r.push(coord(x as i32, y as i32));
                x = x + 1;
            }
            proof {
                assert((y - min.y) * w + w == (y - min.y + 1) * w) by (nonlinear_arith);
            }
            y = y + 1;
        }
        proof {
            assert(box_len(min, max) == (max.y - min.y + 1) * w) by (nonlinear_arith)
                requires
                    min.x <= max.x,
                    min.y <= max.y,
                    w == max.x - min.x + 1,
            ;
        }
        r
    }

    /// Whether the coordinate lies in the box `min..=max`.
    pub fn is_between_inclusive(&self, min: Coord, max: Coord) -> (r: bool)
        ensures
            r == in_box(*self, min, max),
    {
        self.x >= min.x && self.x <= max.x && self.y >= min.y && self.y <= max.y
    }

    /// The coordinate moved by `(x, y)`.
    pub fn offset(&self, x: i32, y: i32) -> (r: Coord)
        requires
            fits_i32(self.x + x),
            fits_i32(self.y + y),
        ensures
            r.x == self.x + x,
            r.y == self.y + y,
    {
        coord(self.x + x, self.y + y)
    }

    /// The four orthogonal neighbours: above, below, left, right.
    pub fn directly_adjacent(&self) -> (r: [Coord; 4])
        requires
            fits_i32(self.x - 1),
            fits_i32(self.x + 1),
            fits_i32(self.y - 1),
            fits_i32(self.y + 1),
        ensures
            r@ == seq![self.top_spec(), self.bottom_spec(), self.left_spec(), self.right_spec()],
    {
        let r = [self.top(), self.bottom(), self.left(), self.right()];
        assert(r@ =~= seq![self.top_spec(), self.bottom_spec(), self.left_spec(), self.right_spec()]);
        r
    }

    /// The coordinate above.
    pub open spec fn top_spec(&self) -> Coord {
        Coord { x: self.x, y: (self.y + 1) as i32 }
    }

    /// The coordinate below.
    pub open spec fn bottom_spec(&self) -> Coord {
        Coord { x: self.x, y: (self.y - 1) as i32 }
    }

    /// The coordinate to the left.
    pub open spec fn left_spec(&self) -> Coord {
        Coord { x: (self.x - 1) as i32, y: self.y }
    }

    /// The coordinate to the right.
    pub open spec fn right_spec(&self) -> Coord {
        Coord { x: (self.x + 1) as i32, y: self.y }
    }

    pub fn bottom_left(&self) -> (r: Coord)
        requires
            fits_i32(self.x - 1),
            fits_i32(self.y - 1),
        ensures
            r.x == self.x - 1,
            r.y == self.y - 1,
    {
        self.offset(-1, -1)
    }

    pub fn bottom(&self) -> (r: Coord)
        requires
            fits_i32(self.y - 1),
        ensures
            r == self.bottom_spec(),
    {
        self.offset(0, -1)
    }

    pub fn bottom_right(&self) -> (r: Coord)
        requires
            fits_i32(self.x + 1),
            fits_i32(self.y - 1),
        ensures
            r.x == self.x + 1,
            r.y == self.y - 1,
    {
        self.offset(1, -1)
    }

    pub fn left(&self) -> (r: Coord)
        requires
            fits_i32(self.x - 1),
        ensures
            r == self.left_spec(),
    {
        self.offset(-1, 0)
    }

    pub fn right(&self) -> (r: Coord)
        requires
            fits_i32(self.x + 1),
        ensures
            r == self.right_spec(),
    {
        self.offset(1, 0)
    }

    pub fn top_left(&self) -> (r: Coord)
        requires
            fits_i32(self.x - 1),
            fits_i32(self.y + 1),
        ensures
            r.x == self.x - 1,
            r.y == self.y + 1,
    {
        self.offset(-1, 1)
    }

    pub fn top(&self) -> (r: Coord)
        requires
            fits_i32(self.y + 1),
        ensures
            r == self.top_spec(),
    {
        self.offset(0, 1)
    }

    pub fn top_right(&self) -> (r: Coord)
        requires
            fits_i32(self.x + 1),
            fits_i32(self.y + 1),
        ensures
            r.x == self.x + 1,
            r.y == self.y + 1,
    {
        self.offset(1, 1)
    }
}

proof fn lemma_div_fits(x: int, size: int)
    requires
        size > 0,
        fits_i32(x),
    ensures
        fits_i32(x / size),
        0 <= x % size < size,
{
    vstd::arithmetic::div_mod::lemma_div_is_ordered_by_denominator(if x >= 0 { x } else { 0 }, 1, size);
    vstd::arithmetic::div_mod::lemma_fundamental_div_mod(x, size);
    vstd::arithmetic::div_mod::lemma_mod_bound(x, size);
    if x < 0 {
        assert(x / size >= x) by (nonlinear_arith)
            requires
                x == size * (x / size) + x % size,
                0 <= x % size < size,
                x < 0,
                size > 0,
        ;
        assert(x / size < 0) by (nonlinear_arith)
            requires
                x == size * (x / size) + x % size,
                0 <= x % size,
                x < 0,
                size > 0,
        ;
    } else {
        assert(0 <= x / size <= x) by (nonlinear_arith)
            requires
                x == size * (x / size) + x % size,
                0 <= x % size < size,
                x >= 0,
                size > 0,
        ;
    }
}

/// Index `row * w + col` of a row-major box of width `w` splits back into
/// its row and column.
pub proof fn lemma_row_index(row: int, col: int, w: int)
    requires
        row >= 0,
        0 <= col < w,
    ensures
        (row * w + col) % w == col,
        (row * w + col) / w == row,
{
    vstd::arithmetic::div_mod::lemma_fundamental_div_mod_converse(row * w + col, w, row, col);
}

} // verus!
