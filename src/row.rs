//! Rows of a quadrant: a depth and the two exact slopes that bound the
//! visible cone there.
use crate::geometry::Pos;
use crate::rational::{ceil_of, floor_of, ratio_ceil, ratio_floor, ratio_le, ratio_le_spec};
use vstd::arithmetic::div_mod::lemma_fundamental_div_mod;
use vstd::prelude::*;

verus! {

/// The deepest row a scan may reach; it keeps every slope computation within
/// the range of `i64`.
pub const MAX_DEPTH: isize = 0x1000_0000;

/// An exact slope `num / den`, measured from the origin, column over depth.
#[derive(Clone, Copy, Debug, PartialEq, Eq, Structural)]
pub struct Slope {
    pub num: i64,
    pub den: i64,
}

impl View for Slope {
    type V = (int, int);

    open spec fn view(&self) -> (int, int) {
        (self.num as int, self.den as int)
    }
}

/// A slope between -1 and 1 whose denominator a row of depth at most
/// `MAX_DEPTH` can produce.
pub open spec fn slope_wf(s: (int, int)) -> bool {
    0 < s.1 <= 2 * MAX_DEPTH && -s.1 <= s.0 <= s.1
}

/// The first column of a row: `depth * start` rounded with ties up.
pub open spec fn min_col(depth: int, start: (int, int)) -> int {
    round_up_spec(depth * start.0, start.1)
}

/// The last column of a row: `depth * end` rounded with ties down.
pub open spec fn max_col(depth: int, end: (int, int)) -> int {
    round_down_spec(depth * end.0, end.1)
}

/// `floor(n / d + 1/2)`.
pub open spec fn round_up_spec(n: int, d: int) -> int {
    floor_of(2 * n + d, 2 * d)
}

/// `ceil(n / d - 1/2)`.
pub open spec fn round_down_spec(n: int, d: int) -> int {
    ceil_of(2 * n - d, 2 * d)
}

/// The slope to the near corner of the tile `(depth, col)`: `(2 col - 1) / (2 depth)`.
pub open spec fn slope_spec(depth: int, col: int) -> (int, int) {
    (2 * col - 1, 2 * depth)
}

/// Whether the centre of column `col` lies within the cone at this depth:
/// `depth * start <= col <= depth * end`.
pub open spec fn symmetric_spec(depth: int, start: (int, int), end: (int, int), col: int) -> bool {
    ratio_le_spec(depth * start.0, start.1, col, 1) && ratio_le_spec(col, 1, depth * end.0, end.1)
}

/// One row of a quadrant.
#[derive(Clone, Copy, Debug, PartialEq, Eq, Structural)]
pub struct Row {
    pub depth: isize,
    pub start_slope: Slope,
    pub end_slope: Slope,
}

impl Row {
    pub open spec fn wf(&self) -> bool {
        &&& 1 <= self.depth <= MAX_DEPTH
        &&& slope_wf(self.start_slope@)
        &&& slope_wf(self.end_slope@)
    }

    pub fn new(depth: isize, start_slope: Slope, end_slope: Slope) -> (r: Row)
        ensures
            r == (Row { depth, start_slope, end_slope }),
    {
        Row { depth, start_slope, end_slope }
    }

    /// The tiles `(depth, col)` of this row, columns ascending from
    /// `min_col` to `max_col`.
    pub fn tiles(&self) -> (r: Vec<Pos>)
        requires
            self.wf(),
        ensures
            -self.depth <= min_col(self.depth as int, self.start_slope@),
            max_col(self.depth as int, self.end_slope@) <= self.depth,
            r@.len() == if max_col(self.depth as int, self.end_slope@) < min_col(
                self.depth as int,
                self.start_slope@,
            ) {
                0
            } else {
                max_col(self.depth as int, self.end_slope@) - min_col(
                    self.depth as int,
                    self.start_slope@,
                ) + 1
            },
            forall|i: int|
                0 <= i < r@.len() ==> r@[i] == (self.depth, (min_col(
                    self.depth as int,
                    self.start_slope@,
                ) + i) as isize),
    {
        let depth = self.depth;
        let ghost d = depth as int;
        proof {
            lemma_scaled_bound(d, self.start_slope@);
            lemma_scaled_bound(d, self.end_slope@);
            lemma_col_bounds(d, self.start_slope@, self.end_slope@);
        }
        let min = round_ties_up((depth as i64) * self.start_slope.num, self.start_slope.den);
        let max = round_ties_down((depth as i64) * self.end_slope.num, self.end_slope.den);
        let mut tiles: Vec<Pos> = Vec::new();
        if min > max {
            return tiles;
        }
        let mut col: i64 = min;
        while col <= max
            invariant
                min <= col <= max + 1,
                -d <= min,
                max <= d,
                d == depth,
                1 <= d <= MAX_DEPTH,
                min == min_col(d, self.start_slope@),
                tiles@.len() == col - min,
                forall|i: int| 0 <= i < tiles@.len() ==> tiles@[i] == (depth, (min + i) as isize),
            decreases max + 1 - col,
        {
            tiles.push((depth, col as isize));
            col = col + 1;
        }
        tiles
    }

    /// The row one deeper, with the same slopes.
    pub fn next(&self) -> (r: Row)
        requires
            self.depth < MAX_DEPTH,
        ensures
            r.depth == self.depth + 1,
            r.start_slope == self.start_slope,
            r.end_slope == self.end_slope,
    {
        Row::new(self.depth + 1, self.start_slope, self.end_slope)
    }
}

/// `depth * num` stays well inside `i64`.
proof fn lemma_scaled_bound(d: int, s: (int, int))
    requires
        1 <= d,
        0 < s.1,
        -s.1 <= s.0 <= s.1,
    ensures
        -(d * s.1) <= d * s.0 <= d * s.1,
        d <= MAX_DEPTH && s.1 <= 2 * MAX_DEPTH ==> d * s.1 <= 0x0200_0000_0000_0000,
        0 < d * s.1,
{
    assert(-(d * s.1) <= d * s.0 <= d * s.1) by (nonlinear_arith)
        requires
            1 <= d,
            -s.1 <= s.0 <= s.1,
    ;
    if d <= MAX_DEPTH && s.1 <= 2 * MAX_DEPTH {
        assert(d * s.1 <= 0x1000_0000 * 0x2000_0000) by (nonlinear_arith)
            requires
                1 <= d <= 0x1000_0000,
                0 < s.1 <= 0x2000_0000,
        ;
    }
    assert(0 < d * s.1) by (nonlinear_arith)
        requires
            1 <= d,
            0 < s.1,
    ;
}

/// Each row's columns lie within `-depth ..= depth`.
pub proof fn lemma_col_bounds(d: int, start: (int, int), end: (int, int))
    requires
        1 <= d,
        0 < start.1,
        0 < end.1,
        -start.1 <= start.0 <= start.1,
        -end.1 <= end.0 <= end.1,
    ensures
        -d <= min_col(d, start),
        max_col(d, end) <= d,
{
    lemma_scaled_bound(d, start);
    lemma_scaled_bound(d, end);
    assert(d * (2 * start.1) == 2 * (d * start.1)) by (nonlinear_arith);
    assert(d * (2 * end.1) == 2 * (d * end.1)) by (nonlinear_arith);
    lemma_floor_at_least(2 * (d * start.0) + start.1, 2 * start.1, d, 2 * (d * start.1));
    lemma_floor_at_least(-(2 * (d * end.0) - end.1), 2 * end.1, d, 2 * (d * end.1));
}

/// `x / m >= -k` whenever `x > -(k * m)`, for `m > 0`.
proof fn lemma_floor_at_least(x: int, m: int, k: int, km: int)
    requires
        m > 0,
        km == k * m,
        x > -km,
    ensures
        x / m >= -k,
{
    lemma_fundamental_div_mod(x, m);
    let q = x / m;
    assert(-k <= q) by (nonlinear_arith)
        requires
            x == m * q + x % m,
            0 <= x % m < m,
            x > -(k * m),
            m > 0,
    {
    }
}

/// The slope to the near corner of a tile.
pub fn slope(tile: Pos) -> (r: Slope)
    requires
        1 <= tile.0 <= MAX_DEPTH,
        -tile.0 <= tile.1 <= tile.0,
    ensures
        r@ == slope_spec(tile.0 as int, tile.1 as int),
{
    let (depth, col) = tile;
    Slope { num: 2 * (col as i64) - 1, den: 2 * (depth as i64) }
}

/// Whether the tile's centre lies within the row's cone.
pub fn is_symmetric(row: Row, tile: Pos) -> (r: bool)
    requires
        row.wf(),
        -row.depth <= tile.1 <= row.depth,
    ensures
        r == symmetric_spec(row.depth as int, row.start_slope@, row.end_slope@, tile.1 as int),
{
    let col = tile.1 as i64;
    let depth = row.depth as i64;
    proof {
        lemma_scaled_bound(depth as int, row.start_slope@);
        lemma_scaled_bound(depth as int, row.end_slope@);
    }
    let after_start = ratio_le(depth * row.start_slope.num, row.start_slope.den, col, 1);
    let before_end = ratio_le(col, 1, depth * row.end_slope.num, row.end_slope.den);
    after_start && before_end
}

/// Bound on the fractions the rounding functions accept.
pub open spec fn round_arg_ok(n: int, d: int) -> bool {
    -0x0400_0000_0000_0000 <= n <= 0x0400_0000_0000_0000 && 0 < d <= 0x0400_0000_0000_0000
}

/// `n / d` rounded to the nearest integer, ties toward plus infinity.
pub fn round_ties_up(n: i64, d: i64) -> (r: i64)
    requires
        round_arg_ok(n as int, d as int),
    ensures
        r == round_up_spec(n as int, d as int),
{
    ratio_floor(2 * n + d, 2 * d)
}

/// `n / d` rounded to the nearest integer, ties toward minus infinity.
pub fn round_ties_down(n: i64, d: i64) -> (r: i64)
    requires
        round_arg_ok(n as int, d as int),
    ensures
        r == round_down_spec(n as int, d as int),
{
    ratio_ceil(2 * n - d, 2 * d)
}

} // verus!
