//! The shadowcasting scan and the entry point that runs it in every quadrant.
use crate::geometry::{cardinal_of, fits_isize, origin_fits, transform_spec, Cardinal, Pos, Quadrant};
use crate::row::{
    is_symmetric, lemma_col_bounds, max_col, min_col, slope, slope_spec, symmetric_spec,
    Row, Slope, MAX_DEPTH,
};
use vstd::prelude::*;

verus! {

/// A position as a pair of mathematical integers.
pub open spec fn pos_view(p: Pos) -> (int, int) {
    (p.0 as int, p.1 as int)
}

/// A sequence of positions as pairs of mathematical integers.
pub open spec fn positions_view(s: Seq<Pos>) -> Seq<(int, int)> {
    s.map_values(|p: Pos| pos_view(p))
}

/// The opacity that the predicate `f` reports: a position blocks unless `f`
/// can answer that it does not.
pub open spec fn blocking_view<F: Fn(Pos) -> bool>(f: F) -> spec_fn((int, int)) -> bool {
    |p: (int, int)| !f.ensures(((p.0 as isize, p.1 as isize),), false)
}

/// `f` may be called on every position and never gives both answers for one.
pub open spec fn answers<F: Fn(Pos) -> bool>(f: F) -> bool {
    &&& forall|p: Pos| #[trigger] f.requires((p,))
    &&& forall|p: Pos| #[trigger] f.ensures((p,), true) ==> !f.ensures((p,), false)
}

/// `f` may be called on every position, and whatever it returns there is
/// what `map` says of that position.
pub open spec fn decides<F: Fn(Pos) -> bool>(f: F, map: spec_fn((int, int)) -> bool) -> bool {
    &&& forall|p: Pos| #[trigger] f.requires((p,))
    &&& forall|p: Pos, r: bool| #[trigger] f.ensures((p,), r) ==> r == map(pos_view(p))
}

/// Every position that fits in `isize` and lies farther than `radius` from
/// `origin` along either axis is blocking.
pub open spec fn bounded_by(b: spec_fn((int, int)) -> bool, origin: (int, int), radius: int) -> bool {
    forall|x: int, y: int|
        fits_isize(x) && fits_isize(y) && (x - origin.0 > radius || origin.0 - x > radius || y
            - origin.1 > radius || origin.1 - y > radius) ==> #[trigger] b((x, y))
}

/// A slope between -1 and 1 with a positive denominator.
pub open spec fn in_unit(s: (int, int)) -> bool {
    s.1 > 0 && -s.1 <= s.0 <= s.1
}

/// A map that blocks every position outside the box `x0 ..= x1` by
/// `y0 ..= y1` around `origin` bounds the scan by the box's larger side.
pub proof fn lemma_box_bounds_scan(
    b: spec_fn((int, int)) -> bool,
    origin: Pos,
    x0: int,
    x1: int,
    y0: int,
    y1: int,
)
    requires
        x0 <= origin.0 <= x1,
        y0 <= origin.1 <= y1,
        x1 - x0 < MAX_DEPTH,
        y1 - y0 < MAX_DEPTH,
        origin_fits(origin.0 as int, origin.1 as int, if x1 - x0 >= y1 - y0 { x1 - x0 } else { y1 - y0 } + 1),
        forall|x: int, y: int|
            fits_isize(x) && fits_isize(y) && !(x0 <= x <= x1 && y0 <= y <= y1) ==> #[trigger] b((x, y)),
    ensures
        radius_ok(b, origin, if x1 - x0 >= y1 - y0 { x1 - x0 } else { y1 - y0 }),
{
}

/// `radius` bounds the region a scan from `origin` can explore, and every
/// position one step beyond it still fits in `isize`.
pub open spec fn radius_ok(b: spec_fn((int, int)) -> bool, origin: Pos, radius: int) -> bool {
    &&& 0 <= radius < MAX_DEPTH
    &&& origin_fits(origin.0 as int, origin.1 as int, radius + 1)
    &&& bounded_by(b, pos_view(origin), radius)
}

/// What a caller of `compute_fov` must provide: a predicate that answers
/// everywhere and blocks everything beyond some radius around the origin.
pub open spec fn fov_ready<F: Fn(Pos) -> bool>(f: F, origin: Pos) -> bool {
    answers(f) && exists|radius: int| radius_ok(blocking_view(f), origin, radius)
}

/// A radius that bounds the scan.
pub open spec fn fov_radius(b: spec_fn((int, int)) -> bool, origin: Pos) -> int {
    choose|radius: int| radius_ok(b, origin, radius)
}

/// The positions a scan marks from column `col` to `last` of the row at
/// `depth` with the cone `start ..= end`, `prev` telling whether the
/// previous tile of the row was a wall; `fuel` is how many rows deeper
/// the scan may still go.
pub open spec fn scan_row(
    b: spec_fn((int, int)) -> bool,
    q: Quadrant,
    depth: int,
    start: (int, int),
    end: (int, int),
    col: int,
    last: int,
    prev: Option<bool>,
    fuel: nat,
) -> Seq<(int, int)>
    decreases fuel, 0int, last + 1 - col,
{
    if col > last {
        if prev == Some(false) && fuel > 0 {
            scan_spec(b, q, depth + 1, start, end, (fuel - 1) as nat)
        } else {
            Seq::empty()
        }
    } else {
        let pos = transform_spec(q, depth, col);
        let wall = b(pos);
        let here = if wall || symmetric_spec(depth, start, end, col) {
            seq![pos]
        } else {
            Seq::empty()
        };
        let start2 = if prev == Some(true) && !wall {
            slope_spec(depth, col)
        } else {
            start
        };
        let child = if prev == Some(false) && wall && fuel > 0 {
            scan_spec(b, q, depth + 1, start2, slope_spec(depth, col), (fuel - 1) as nat)
        } else {
            Seq::empty()
        };
        here + child + scan_row(b, q, depth, start2, end, col + 1, last, Some(wall), fuel)
    }
}

/// The positions a scan of the row at `depth` with the cone `start ..= end`
/// marks, in the order it marks them.
pub open spec fn scan_spec(
    b: spec_fn((int, int)) -> bool,
    q: Quadrant,
    depth: int,
    start: (int, int),
    end: (int, int),
    fuel: nat,
) -> Seq<(int, int)>
    decreases fuel, 1int, 0int,
{
    scan_row(b, q, depth, start, end, min_col(depth, start), max_col(depth, end), None, fuel)
}

/// The quadrant facing `cardinal` around `origin`.
pub open spec fn quadrant_of(cardinal: Cardinal, origin: Pos) -> Quadrant {
    Quadrant { cardinal, ox: origin.0, oy: origin.1 }
}

/// What the scans of the quadrants `0 .. n` mark, in order.
pub open spec fn quadrants_spec(b: spec_fn((int, int)) -> bool, origin: Pos, n: int, fuel: nat) -> Seq<
    (int, int),
>
    decreases n,
{
    if n <= 0 {
        Seq::empty()
    } else {
        quadrants_spec(b, origin, n - 1, fuel) + scan_spec(
            b,
            quadrant_of(cardinal_of(n - 1), origin),
            1,
            (-1, 1),
            (1, 1),
            fuel,
        )
    }
}

/// Everything `compute_fov` marks, in order: the origin, then the four
/// quadrants, each scanned from the full cone at depth 1.
pub open spec fn fov_spec(b: spec_fn((int, int)) -> bool, origin: Pos, fuel: nat) -> Seq<(int, int)> {
    seq![pos_view(origin)] + quadrants_spec(b, origin, 4, fuel)
}

/// The tile at `depth` of quadrant `q` is blocking once `depth` exceeds the radius.
proof fn lemma_far_blocked(b: spec_fn((int, int)) -> bool, q: Quadrant, radius: int, depth: int, col: int)
    requires
        bounded_by(b, (q.ox as int, q.oy as int), radius),
        origin_fits(q.ox as int, q.oy as int, radius + 1),
        radius < depth <= radius + 1,
        -depth <= col <= depth,
    ensures
        b(transform_spec(q, depth, col)),
{
    let p = transform_spec(q, depth, col);
    assert(fits_isize(p.0) && fits_isize(p.1));
    assert(b((p.0, p.1)));
}

/// Scans `row` and, depth first, every row its cone continues into, pushing
/// what it marks onto `marks`. `fuel` counts the rows left before the radius
/// beyond which everything blocks.
fn scan<F: Fn(Pos) -> bool>(
    row: Row,
    quadrant: Quadrant,
    is_blocking: &F,
    marks: &mut Vec<Pos>,
    Ghost(map): Ghost<spec_fn((int, int)) -> bool>,
    Ghost(fuel): Ghost<nat>,
)
    requires
        row.wf(),
        decides(*is_blocking, map),
        row.depth + fuel - 1 < MAX_DEPTH,
        origin_fits(quadrant.ox as int, quadrant.oy as int, row.depth + fuel),
        bounded_by(map, (quadrant.ox as int, quadrant.oy as int), row.depth + fuel - 1),
    ensures
        positions_view(final(marks)@) == positions_view(old(marks)@) + scan_spec(
            map,
            quadrant,
            row.depth as int,
            row.start_slope@,
            row.end_slope@,
            fuel,
        ),
    decreases fuel,
{
    let ghost b = map;
    let ghost radius = row.depth + fuel - 1;
    let ghost q = quadrant;
    let ghost d = row.depth as int;
    let ghost start0 = row.start_slope@;
    let ghost end0 = row.end_slope@;
    let ghost marks0 = positions_view(marks@);
    let tiles = row.tiles();
    let ghost first = min_col(d, start0);
    let ghost last = max_col(d, end0);
    let mut row = row;
    let mut prev: Option<bool> = None;
    let mut i: usize = 0;
    while i < tiles.len()
        invariant
            decides(*is_blocking, map),
            b == map,
            row.wf(),
            row.depth == d,
            row.end_slope@ == end0,
            radius == d + fuel - 1,
            radius < MAX_DEPTH,
            origin_fits(q.ox as int, q.oy as int, d + fuel),
            bounded_by(b, (q.ox as int, q.oy as int), radius),
            quadrant == q,
            -d <= first,
            last <= d,
            0 <= i <= tiles@.len(),
            tiles@.len() == if last < first { 0 } else { last - first + 1 },
            forall|k: int| 0 <= k < tiles@.len() ==> tiles@[k] == (d as isize, (first + k) as isize),
            i == 0 <==> prev is None,
            fuel == 0 ==> prev != Some(false),
            positions_view(marks@) + scan_row(
                b,
                q,
                d,
                row.start_slope@,
                end0,
                first + i,
                last,
                prev,
                fuel,
            ) == marks0 + scan_spec(b, q, d, start0, end0, fuel),
        decreases tiles@.len() - i,
    {
        let tile = tiles[i];
        let ghost col = first + i;
        let ghost pos = transform_spec(q, d, col);
        let ghost old_marks = positions_view(marks@);
        let ghost old_start = row.start_slope@;
        let ghost old_prev = prev;
        proof {
            if fuel == 0 {
                lemma_far_blocked(b, q, radius, d, col);
            }
        }
        let p = quadrant.transform(tile);
        let tile_is_wall = is_blocking(p);
        assert(tile_is_wall == b(pos));
        if tile_is_wall || is_symmetric(row, tile) {
            marks.push(p);
            assert(positions_view(marks@) =~= old_marks.push(pos));
        }
        if prev == Some(true) && !tile_is_wall {
            row.start_slope = slope(tile);
        }
        if prev == Some(false) && tile_is_wall {
            let mut next_row = row.next();
            next_row.end_slope = slope(tile);
            scan(next_row, quadrant, is_blocking, marks, Ghost(map), Ghost((fuel - 1) as nat));
        }
        proof {
            assert(positions_view(marks@) + scan_row(
                b,
                q,
                d,
                row.start_slope@,
                end0,
                col + 1,
                last,
                Some(tile_is_wall),
                fuel,
            ) =~= old_marks + scan_row(b, q, d, old_start, end0, col, last, old_prev, fuel));
        }
        prev = Some(tile_is_wall);
        i = i + 1;
    }
    if prev == Some(false) {
        scan(row.next(), quadrant, is_blocking, marks, Ghost(map), Ghost((fuel - 1) as nat));
    }
    proof {
        assert(positions_view(marks@) =~= marks0 + scan_spec(b, q, d, start0, end0, fuel));
    }
}

/// Computes the field of view from `origin` over the opacity `map`, which
/// `is_blocking` decides: every position the scan marks visible, in the
/// order it marks them, the origin first, then the quadrants facing north,
/// east, south and west. A position may appear more than once.
///
/// `map` must block every position beyond some radius around the origin,
/// which bounds the scan.
pub fn compute_fov_over<F: Fn(Pos) -> bool>(
    origin: Pos,
    is_blocking: &F,
    Ghost(map): Ghost<spec_fn((int, int)) -> bool>,
) -> (marks: Vec<Pos>)
    requires
        decides(*is_blocking, map),
        exists|radius: int| radius_ok(map, origin, radius),
    ensures
        marks@.len() > 0,
        marks@[0] == origin,
        positions_view(marks@) == fov_spec(map, origin, fov_radius(map, origin) as nat),
{
    let ghost b = map;
    let ghost radius = fov_radius(b, origin);
    proof {
        let r = choose|r: int| radius_ok(b, origin, r);
        assert(radius_ok(b, origin, r));
    }
    let mut marks: Vec<Pos> = Vec::new();
    marks.push(origin);
    assert(positions_view(marks@) =~= seq![pos_view(origin)] + quadrants_spec(b, origin, 0, radius as nat));
    let mut i: usize = 0;
    while i < 4
        invariant
            i <= 4,
            b == map,
            decides(*is_blocking, map),
            radius_ok(b, origin, radius),
            marks@.len() > 0,
            marks@[0] == origin,
            positions_view(marks@) == seq![pos_view(origin)] + quadrants_spec(b, origin, i as int, radius as nat),
        decreases 4 - i,
    {
        let quadrant = Quadrant::new(Cardinal::from_index(i), origin);
        let first_row = Row::new(1, Slope { num: -1, den: 1 }, Slope { num: 1, den: 1 });
        let ghost before = positions_view(marks@);
        scan(first_row, quadrant, is_blocking, &mut marks, Ghost(map), Ghost(radius as nat));
        proof {
            assert(positions_view(marks@).len() == marks@.len());
            assert(positions_view(marks@)[0] == before[0]);
            assert(positions_view(marks@)[0] == pos_view(marks@[0]));
            assert(pos_view(marks@[0]) == pos_view(origin));
            assert(positions_view(marks@) =~= seq![pos_view(origin)] + quadrants_spec(b, origin, i + 1, radius as nat));
        }
        i = i + 1;
    }
    marks
}

/// Computes the field of view from `origin`, with `is_blocking` telling
/// which positions are opaque; the result is that of `compute_fov_over` for
/// the opacity `is_blocking` reports.
///
/// `is_blocking` must block every position beyond some radius around the
/// origin, which bounds the scan.
pub fn compute_fov<F: Fn(Pos) -> bool>(origin: Pos, is_blocking: &F) -> (marks: Vec<Pos>)
    requires
        fov_ready(*is_blocking, origin),
    ensures
        marks@.len() > 0,
        marks@[0] == origin,
        positions_view(marks@) == fov_spec(
            blocking_view(*is_blocking),
            origin,
            fov_radius(blocking_view(*is_blocking), origin) as nat,
        ),
{
    proof {
        let f = *is_blocking;
        assert forall|p: Pos, r: bool| #[trigger] f.ensures((p,), r) implies r == blocking_view(f)(
            pos_view(p),
        ) by {
            assert(((p.0 as int) as isize, (p.1 as int) as isize) == p);
        }
    }
    compute_fov_over(origin, is_blocking, Ghost(blocking_view(*is_blocking)))
}

/// The origin is always marked, whether or not it is itself blocking.
pub proof fn lemma_origin_marked(b: spec_fn((int, int)) -> bool, origin: Pos, fuel: nat)
    ensures
        fov_spec(b, origin, fuel).contains(pos_view(origin)),
{
    assert(fov_spec(b, origin, fuel)[0] == pos_view(origin));
}

/// Every blocking tile within a scanned row's columns is marked, even where
/// its centre lies outside the cone.
pub proof fn lemma_walls_marked(
    b: spec_fn((int, int)) -> bool,
    q: Quadrant,
    depth: int,
    start: (int, int),
    end: (int, int),
    fuel: nat,
    c: int,
)
    requires
        depth >= 1,
        min_col(depth, start) <= c <= max_col(depth, end),
        b(transform_spec(q, depth, c)),
    ensures
        scan_spec(b, q, depth, start, end, fuel).contains(transform_spec(q, depth, c)),
{
    lemma_row_tile_marked(
        b,
        q,
        depth,
        start,
        end,
        min_col(depth, start),
        max_col(depth, end),
        None,
        fuel,
        c,
    );
}

/// Two results of `compute_fov` for the same predicate and origin are the
/// same sequence of positions, hence the same visible set.
pub proof fn lemma_fov_deterministic<F: Fn(Pos) -> bool>(
    f: F,
    origin: Pos,
    first: Seq<Pos>,
    second: Seq<Pos>,
)
    requires
        positions_view(first) == fov_spec(
            blocking_view(f),
            origin,
            fov_radius(blocking_view(f), origin) as nat,
        ),
        positions_view(second) == fov_spec(
            blocking_view(f),
            origin,
            fov_radius(blocking_view(f), origin) as nat,
        ),
    ensures
        first == second,
        first.to_set() == second.to_set(),
{
    assert(first.len() == positions_view(first).len());
    assert(second.len() == positions_view(second).len());
    assert forall|k: int| 0 <= k < first.len() implies first[k] == second[k] by {
        assert(positions_view(first)[k] == pos_view(first[k]));
        assert(positions_view(second)[k] == pos_view(second[k]));
    }
    assert(first =~= second);
}

proof fn lemma_row_fuel_irrelevant(
    b: spec_fn((int, int)) -> bool,
    q: Quadrant,
    radius: int,
    depth: int,
    start: (int, int),
    end: (int, int),
    col: int,
    last: int,
    prev: Option<bool>,
    f1: nat,
    f2: nat,
)
    requires
        bounded_by(b, (q.ox as int, q.oy as int), radius),
        origin_fits(q.ox as int, q.oy as int, radius + 1),
        1 <= depth <= radius + 1,
        in_unit(start),
        in_unit(end),
        last == max_col(depth, end),
        -depth <= col,
        prev is Some ==> -depth < col,
        depth + f1 > radius,
        depth + f2 > radius,
        prev == Some(false) ==> depth <= radius,
    ensures
        scan_row(b, q, depth, start, end, col, last, prev, f1) == scan_row(
            b,
            q,
            depth,
            start,
            end,
            col,
            last,
            prev,
            f2,
        ),
    decreases f1 + f2, 0int, last + 1 - col,
{
    lemma_col_bounds(depth, start, end);
    if col > last {
        if prev == Some(false) {
            lemma_fuel_irrelevant(b, q, radius, depth + 1, start, end, (f1 - 1) as nat, (f2 - 1) as nat);
        }
    } else {
        let pos = transform_spec(q, depth, col);
        let wall = b(pos);
        if depth > radius {
            lemma_far_blocked(b, q, radius, depth, col);
        }
        let start2 = if prev == Some(true) && !wall {
            slope_spec(depth, col)
        } else {
            start
        };
        if prev == Some(false) && wall {
            lemma_fuel_irrelevant(
                b,
                q,
                radius,
                depth + 1,
                start2,
                slope_spec(depth, col),
                (f1 - 1) as nat,
                (f2 - 1) as nat,
            );
        }
        lemma_row_fuel_irrelevant(b, q, radius, depth, start2, end, col + 1, last, Some(wall), f1, f2);
    }
}

/// Once the fuel reaches past the radius beyond which everything blocks,
/// more fuel changes nothing.
pub proof fn lemma_fuel_irrelevant(
    b: spec_fn((int, int)) -> bool,
    q: Quadrant,
    radius: int,
    depth: int,
    start: (int, int),
    end: (int, int),
    f1: nat,
    f2: nat,
)
    requires
        bounded_by(b, (q.ox as int, q.oy as int), radius),
        origin_fits(q.ox as int, q.oy as int, radius + 1),
        1 <= depth <= radius + 1,
        in_unit(start),
        in_unit(end),
        depth + f1 > radius,
        depth + f2 > radius,
    ensures
        scan_spec(b, q, depth, start, end, f1) == scan_spec(b, q, depth, start, end, f2),
    decreases f1 + f2, 1int, 0int,
{
    lemma_col_bounds(depth, start, end);
    lemma_row_fuel_irrelevant(
        b,
        q,
        radius,
        depth,
        start,
        end,
        min_col(depth, start),
        max_col(depth, end),
        None,
        f1,
        f2,
    );
}

/// The whole field of view is the same for any fuel that reaches past the
/// radius.
pub proof fn lemma_fov_fuel_irrelevant(
    b: spec_fn((int, int)) -> bool,
    origin: Pos,
    radius: int,
    f1: nat,
    f2: nat,
)
    requires
        bounded_by(b, pos_view(origin), radius),
        origin_fits(origin.0 as int, origin.1 as int, radius + 1),
        0 <= radius,
        f1 >= radius,
        f2 >= radius,
    ensures
        fov_spec(b, origin, f1) == fov_spec(b, origin, f2),
{
    assert forall|n: int| 0 <= n <= 4 implies #[trigger] quadrants_spec(b, origin, n, f1)
        == quadrants_spec(b, origin, n, f2) by {
        lemma_quadrants_fuel_irrelevant(b, origin, radius, n, f1, f2);
    }
}

proof fn lemma_quadrants_fuel_irrelevant(
    b: spec_fn((int, int)) -> bool,
    origin: Pos,
    radius: int,
    n: int,
    f1: nat,
    f2: nat,
)
    requires
        bounded_by(b, pos_view(origin), radius),
        origin_fits(origin.0 as int, origin.1 as int, radius + 1),
        0 <= radius,
        f1 >= radius,
        f2 >= radius,
    ensures
        quadrants_spec(b, origin, n, f1) == quadrants_spec(b, origin, n, f2),
    decreases n,
{
    if n > 0 {
        lemma_quadrants_fuel_irrelevant(b, origin, radius, n - 1, f1, f2);
        lemma_fuel_irrelevant(
            b,
            quadrant_of(cardinal_of(n - 1), origin),
            radius,
            1,
            (-1, 1),
            (1, 1),
            f1,
            f2,
        );
    }
}

/// What two sequences joined hold is what either holds.
pub proof fn lemma_concat_contains(a: Seq<(int, int)>, c: Seq<(int, int)>)
    ensures
        forall|x: (int, int)| #[trigger] (a + c).contains(x) <==> a.contains(x) || c.contains(x),
{
    assert forall|x: (int, int)| #[trigger] (a + c).contains(x) <==> a.contains(x) || c.contains(x) by {
        if a.contains(x) {
            let k = choose|k: int| 0 <= k < a.len() && a[k] == x;
            assert((a + c)[k] == x);
        }
        if c.contains(x) {
            let k = choose|k: int| 0 <= k < c.len() && c[k] == x;
            assert((a + c)[a.len() + k] == x);
        }
        if (a + c).contains(x) {
            let k = choose|k: int| 0 <= k < (a + c).len() && (a + c)[k] == x;
            if k < a.len() {
                assert(a[k] == x);
            } else {
                assert(c[k - a.len()] == x);
            }
        }
    }
}

proof fn lemma_row_tile_marked(
    b: spec_fn((int, int)) -> bool,
    q: Quadrant,
    depth: int,
    start: (int, int),
    end: (int, int),
    col: int,
    last: int,
    prev: Option<bool>,
    fuel: nat,
    c: int,
)
    requires
        depth >= 1,
        col <= c <= last,
        b(transform_spec(q, depth, c)) || symmetric_spec(depth, start, end, c),
    ensures
        scan_row(b, q, depth, start, end, col, last, prev, fuel).contains(transform_spec(q, depth, c)),
    decreases last - col,
{
    let x = transform_spec(q, depth, c);
    let all = scan_row(b, q, depth, start, end, col, last, prev, fuel);
    if c == col {
        assert(all[0] == x);
    } else {
        let pos = transform_spec(q, depth, col);
        let wall = b(pos);
        let here = if wall || symmetric_spec(depth, start, end, col) {
            seq![pos]
        } else {
            Seq::empty()
        };
        let start2 = if prev == Some(true) && !wall {
            slope_spec(depth, col)
        } else {
            start
        };
        let child = if prev == Some(false) && wall && fuel > 0 {
            scan_spec(b, q, depth + 1, start2, slope_spec(depth, col), (fuel - 1) as nat)
        } else {
            Seq::empty()
        };
        let rest = scan_row(b, q, depth, start2, end, col + 1, last, Some(wall), fuel);
        assert(depth * (2 * col - 1) * 1 <= c * (2 * depth)) by (nonlinear_arith)
            requires
                depth >= 1,
                col < c,
        ;
        lemma_row_tile_marked(b, q, depth, start2, end, col + 1, last, Some(wall), fuel, c);
        lemma_concat_contains(here, child);
        lemma_concat_contains(here + child, rest);
        assert(all == here + child + rest);
    }
}

proof fn lemma_quadrants_keep(
    b: spec_fn((int, int)) -> bool,
    origin: Pos,
    fuel: nat,
    n: int,
    k: int,
    x: (int, int),
)
    requires
        0 <= n <= k,
        quadrants_spec(b, origin, n, fuel).contains(x),
    ensures
        quadrants_spec(b, origin, k, fuel).contains(x),
    decreases k - n,
{
    if k > n {
        lemma_quadrants_keep(b, origin, fuel, n, k - 1, x);
        lemma_concat_contains(
            quadrants_spec(b, origin, k - 1, fuel),
            scan_spec(b, quadrant_of(cardinal_of(k - 1), origin), 1, (-1, 1), (1, 1), fuel),
        );
    }
}

/// Every tile next to the origin is marked, blocking or not: each is at
/// depth 1 of some quadrant, whose full cone takes in all three columns.
pub proof fn lemma_neighbours_marked(b: spec_fn((int, int)) -> bool, origin: Pos, fuel: nat, dx: int, dy: int)
    requires
        -1 <= dx <= 1,
        -1 <= dy <= 1,
    ensures
        fov_spec(b, origin, fuel).contains((origin.0 + dx, origin.1 + dy)),
{
    let x = (origin.0 + dx, origin.1 + dy);
    let full = fov_spec(b, origin, fuel);
    if dx == 0 && dy == 0 {
        assert(full[0] == x);
    } else {
        let n: int = if dy == -1 { 1 } else if dx == 1 && dy == 0 { 2 } else if dy == 1 { 3 } else { 4 };
        let col: int = if dy == 0 { 0 } else { dx };
        let q = quadrant_of(cardinal_of(n - 1), origin);
        assert(transform_spec(q, 1, col) == x);
        assert(min_col(1, (-1, 1)) == -1);
        assert(max_col(1, (1, 1)) == 1);
        lemma_row_tile_marked(b, q, 1, (-1, 1), (1, 1), -1, 1, None, fuel, col);
        let qs = scan_spec(b, q, 1, (-1, 1), (1, 1), fuel);
        lemma_concat_contains(quadrants_spec(b, origin, n - 1, fuel), qs);
        lemma_quadrants_keep(b, origin, fuel, n, 4, x);
        lemma_concat_contains(seq![pos_view(origin)], quadrants_spec(b, origin, 4, fuel));
    }
}

} // verus!
