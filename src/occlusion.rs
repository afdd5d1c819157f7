//! Adding occluders never reveals a position that was hidden, except the
//! added occluders themselves.
use crate::fov::{
    lemma_concat_contains, bounded_by, fov_radius, fov_spec, lemma_fov_fuel_irrelevant, pos_view, positions_view,
    quadrant_of, quadrants_spec, radius_ok, scan_row, scan_spec,
};
use crate::geometry::{cardinal_of, fits_isize, transform_spec, Pos, Quadrant};
use crate::rational::ratio_le_spec;
use crate::row::{max_col, min_col, slope_spec, symmetric_spec};
use vstd::arithmetic::div_mod::lemma_fundamental_div_mod;
use vstd::prelude::*;

verus! {

/// `a <= c` for slopes with positive denominators.
pub open spec fn slope_le(a: (int, int), c: (int, int)) -> bool {
    ratio_le_spec(a.0, a.1, c.0, c.1)
}

/// `b2` blocks at least everything `b` blocks.
pub open spec fn more_blocking(b: spec_fn((int, int)) -> bool, b2: spec_fn((int, int)) -> bool) -> bool {
    forall|x: (int, int)| #[trigger] b(x) ==> b2(x)
}

/// Every position of `new` is in `old` or is blocking under `b2` only.
pub open spec fn covered(
    new: Seq<(int, int)>,
    old: Seq<(int, int)>,
    b: spec_fn((int, int)) -> bool,
    b2: spec_fn((int, int)) -> bool,
) -> bool {
    forall|x: (int, int)| #[trigger] new.contains(x) ==> old.contains(x) || (b2(x) && !b(x))
}

proof fn lemma_le_trans(a: (int, int), c: (int, int), e: (int, int))
    requires
        a.1 > 0,
        c.1 > 0,
        e.1 > 0,
        slope_le(a, c),
        slope_le(c, e),
    ensures
        slope_le(a, e),
{
    assert(a.0 * e.1 <= e.0 * a.1) by (nonlinear_arith)
        requires
            a.1 > 0,
            c.1 > 0,
            e.1 > 0,
            a.0 * c.1 <= c.0 * a.1,
            c.0 * e.1 <= e.0 * c.1,
    ;
}

/// Slopes to the near corners grow with the column.
proof fn lemma_slope_mono(d: int, c: int, c2: int)
    requires
        d >= 1,
        c <= c2,
    ensures
        slope_le(slope_spec(d, c), slope_spec(d, c2)),
{
    assert((2 * c - 1) * (2 * d) <= (2 * c2 - 1) * (2 * d)) by (nonlinear_arith)
        requires
            d >= 1,
            c <= c2,
    ;
}

/// Facts on the first column of a row: corners past it lie beyond the start
/// slope, corners up to it lie before it.
proof fn lemma_min_col_corners(d: int, s: (int, int), c: int)
    requires
        d >= 1,
        s.1 > 0,
    ensures
        c >= min_col(d, s) + 1 ==> s.0 * (2 * d) < (2 * c - 1) * s.1,
        c <= min_col(d, s) ==> (2 * c - 1) * s.1 <= s.0 * (2 * d),
{
    let x = 2 * (d * s.0) + s.1;
    let m2 = 2 * s.1;
    lemma_fundamental_div_mod(x, m2);
    let q = x / m2;
    assert(min_col(d, s) == q);
    assert(s.0 * (2 * d) == 2 * (d * s.0)) by (nonlinear_arith);
    assert((2 * c - 1) * s.1 == 2 * (c * s.1) - s.1) by (nonlinear_arith);
    assert(m2 * c == 2 * (c * s.1)) by (nonlinear_arith)
        requires
            m2 == 2 * s.1,
    ;
    assert(m2 * (q + 1) == m2 * q + m2) by (nonlinear_arith);
    if c >= q + 1 {
        assert(m2 * (q + 1) <= m2 * c) by (nonlinear_arith)
            requires
                m2 > 0,
                c >= q + 1,
        ;
    }
    if c <= q {
        assert(m2 * c <= m2 * q) by (nonlinear_arith)
            requires
                m2 > 0,
                c <= q,
        ;
    }
}

/// Facts on the last column of a row: corners up to it lie before the end
/// slope, corners past it lie beyond it.
proof fn lemma_max_col_corners(d: int, e: (int, int), c: int)
    requires
        d >= 1,
        e.1 > 0,
    ensures
        c <= max_col(d, e) ==> (2 * c - 1) * e.1 < e.0 * (2 * d),
        c >= max_col(d, e) + 1 ==> e.0 * (2 * d) <= (2 * c - 1) * e.1,
{
    let y = -(2 * (d * e.0) - e.1);
    let m2 = 2 * e.1;
    lemma_fundamental_div_mod(y, m2);
    let q = y / m2;
    assert(max_col(d, e) == -q);
    assert(e.0 * (2 * d) == 2 * (d * e.0)) by (nonlinear_arith);
    assert((2 * c - 1) * e.1 == 2 * (c * e.1) - e.1) by (nonlinear_arith);
    assert(m2 * c == 2 * (c * e.1)) by (nonlinear_arith)
        requires
            m2 == 2 * e.1,
    ;
    assert(m2 * (-q) == -(m2 * q)) by (nonlinear_arith);
    assert(m2 * (-q + 1) == -(m2 * q) + m2) by (nonlinear_arith);
    if c <= -q {
        assert(m2 * c <= m2 * (-q)) by (nonlinear_arith)
            requires
                m2 > 0,
                c <= -q,
        ;
    }
    if c >= -q + 1 {
        assert(m2 * c >= m2 * (-q + 1)) by (nonlinear_arith)
            requires
                m2 > 0,
                c >= -q + 1,
        ;
    }
}

/// A narrower start never moves the first column left.
proof fn lemma_min_col_mono(d: int, s: (int, int), s2: (int, int))
    requires
        d >= 1,
        s.1 > 0,
        s2.1 > 0,
        slope_le(s, s2),
    ensures
        min_col(d, s) <= min_col(d, s2),
{
    if min_col(d, s) > min_col(d, s2) {
        let c = min_col(d, s2) + 1;
        lemma_min_col_corners(d, s, c);
        lemma_min_col_corners(d, s2, c);
        let k = 2 * c - 1;
        assert(false) by (nonlinear_arith)
            requires
                s.1 > 0,
                s2.1 > 0,
                d >= 1,
                k * s.1 <= s.0 * (2 * d),
                s2.0 * (2 * d) < k * s2.1,
                s.0 * s2.1 <= s2.0 * s.1,
        ;
    }
}

/// A narrower end never moves the last column right.
proof fn lemma_max_col_mono(d: int, e: (int, int), e2: (int, int))
    requires
        d >= 1,
        e.1 > 0,
        e2.1 > 0,
        slope_le(e2, e),
    ensures
        max_col(d, e2) <= max_col(d, e),
{
    if max_col(d, e2) > max_col(d, e) {
        let c = max_col(d, e) + 1;
        lemma_max_col_corners(d, e, c);
        lemma_max_col_corners(d, e2, c);
        let k = 2 * c - 1;
        assert(false) by (nonlinear_arith)
            requires
                e.1 > 0,
                e2.1 > 0,
                d >= 1,
                k * e2.1 < e2.0 * (2 * d),
                e.0 * (2 * d) <= k * e.1,
                e2.0 * e.1 <= e.0 * e2.1,
        ;
    }
}

proof fn lemma_covered_trans(
    n: Seq<(int, int)>,
    m: Seq<(int, int)>,
    o: Seq<(int, int)>,
    b: spec_fn((int, int)) -> bool,
    b2: spec_fn((int, int)) -> bool,
)
    requires
        covered(n, m, b, b2),
        covered(m, o, b, b),
    ensures
        covered(n, o, b, b2),
{
}

/// The symmetry test passes under a wider cone whenever it passes under a
/// narrower one.
proof fn lemma_sym_mono(d: int, so: (int, int), sn: (int, int), e: (int, int), e2: (int, int), c: int)
    requires
        d >= 1,
        so.1 > 0,
        sn.1 > 0,
        e.1 > 0,
        e2.1 > 0,
        slope_le(so, sn) || slope_le(so, slope_spec(d, c)),
        slope_le(e2, e),
        symmetric_spec(d, sn, e2, c),
    ensures
        symmetric_spec(d, so, e, c),
{
    if slope_le(so, sn) {
        assert(d * so.0 * 1 <= c * so.1) by (nonlinear_arith)
            requires
                so.1 > 0,
                sn.1 > 0,
                d >= 1,
                so.0 * sn.1 <= sn.0 * so.1,
                d * sn.0 * 1 <= c * sn.1,
        ;
    } else {
        assert(d * so.0 * 1 <= c * so.1) by (nonlinear_arith)
            requires
                so.1 > 0,
                d >= 1,
                so.0 * (2 * d) <= (2 * c - 1) * so.1,
        ;
    }
    assert(c * e.1 <= d * e.0 * 1) by (nonlinear_arith)
        requires
            e.1 > 0,
            e2.1 > 0,
            d >= 1,
            e2.0 * e.1 <= e.0 * e2.1,
            c * e2.1 <= d * e2.0 * 1,
    ;
}

/// Walks the scan of a row from column `c` up to `target` without looking at
/// what it marks, keeping a start slope no wider than `s2`.
proof fn lemma_advance(
    b: spec_fn((int, int)) -> bool,
    q: Quadrant,
    d: int,
    e: (int, int),
    c: int,
    last: int,
    so: (int, int),
    po: Option<bool>,
    fuel: nat,
    target: int,
    s2: (int, int),
) -> (r: ((int, int), Option<bool>))
    requires
        d >= 1,
        so.1 > 0,
        s2.1 > 0,
        slope_le(so, s2),
        c <= target <= last + 1,
        target <= min_col(d, s2),
    ensures
        r.0.1 > 0,
        slope_le(r.0, s2),
        covered(
            scan_row(b, q, d, r.0, e, target, last, r.1, fuel),
            scan_row(b, q, d, so, e, c, last, po, fuel),
            b,
            b,
        ),
    decreases target - c,
{
    if c == target {
        (so, po)
    } else {
        let pos = transform_spec(q, d, c);
        let wall = b(pos);
        let here = if wall || symmetric_spec(d, so, e, c) {
            seq![pos]
        } else {
            Seq::empty()
        };
        let so2 = if po == Some(true) && !wall {
            slope_spec(d, c)
        } else {
            so
        };
        let child = if po == Some(false) && wall && fuel > 0 {
            scan_spec(b, q, d + 1, so2, slope_spec(d, c), (fuel - 1) as nat)
        } else {
            Seq::empty()
        };
        let rest = scan_row(b, q, d, so2, e, c + 1, last, Some(wall), fuel);
        let old = scan_row(b, q, d, so, e, c, last, po, fuel);
        assert(old == here + child + rest);
        lemma_min_col_corners(d, s2, c);
        let r = lemma_advance(b, q, d, e, c + 1, last, so2, Some(wall), fuel, target, s2);
        lemma_concat_contains(here, child);
        lemma_concat_contains(here + child, rest);
        r
    }
}

/// An unbroken run of floor tiles in the wider scan, from column `c` on,
/// ends by scanning a cone one row deeper that reaches at least to `t`.
proof fn lemma_floor_run(
    b: spec_fn((int, int)) -> bool,
    q: Quadrant,
    d: int,
    e: (int, int),
    c: int,
    last: int,
    so: (int, int),
    t: (int, int),
    fuel: nat,
)
    requires
        d >= 1,
        so.1 > 0,
        e.1 > 0,
        t.1 > 0,
        last == max_col(d, e),
        c <= last + 1,
        fuel > 0,
        c <= last ==> slope_le(t, slope_spec(d, c)),
        c > last ==> slope_le(t, e),
    ensures
        covered(
            scan_spec(b, q, d + 1, so, t, (fuel - 1) as nat),
            scan_row(b, q, d, so, e, c, last, Some(false), fuel),
            b,
            b,
        ),
    decreases fuel, 1int, last + 1 - c,
{
    let new = scan_spec(b, q, d + 1, so, t, (fuel - 1) as nat);
    let old = scan_row(b, q, d, so, e, c, last, Some(false), fuel);
    if c > last {
        lemma_more_blocking_cone(b, b, q, d + 1, so, e, so, t, (fuel - 1) as nat);
    } else {
        let pos = transform_spec(q, d, c);
        let wall = b(pos);
        let here = if wall || symmetric_spec(d, so, e, c) {
            seq![pos]
        } else {
            Seq::empty()
        };
        let child = if wall {
            scan_spec(b, q, d + 1, so, slope_spec(d, c), (fuel - 1) as nat)
        } else {
            Seq::empty()
        };
        let rest = scan_row(b, q, d, so, e, c + 1, last, Some(wall), fuel);
        assert(old == here + child + rest);
        lemma_concat_contains(here, child);
        lemma_concat_contains(here + child, rest);
        if wall {
            lemma_more_blocking_cone(b, b, q, d + 1, so, slope_spec(d, c), so, t, (fuel - 1) as nat);
        } else {
            lemma_slope_mono(d, c, c + 1);
            lemma_le_trans(t, slope_spec(d, c), slope_spec(d, c + 1));
            lemma_max_col_corners(d, e, c);
            lemma_le_trans(t, slope_spec(d, c), e);
            lemma_floor_run(b, q, d, e, c + 1, last, so, t, fuel);
        }
    }
}

/// The narrower scan of a row from column `c`, under more blocking, marks
/// nothing the wider scan from the same column does not, but added walls.
proof fn lemma_row_sim(
    b: spec_fn((int, int)) -> bool,
    b2: spec_fn((int, int)) -> bool,
    q: Quadrant,
    d: int,
    e: (int, int),
    e2: (int, int),
    c: int,
    last: int,
    last2: int,
    so: (int, int),
    po: Option<bool>,
    sn: (int, int),
    pn: Option<bool>,
    fuel: nat,
)
    requires
        more_blocking(b, b2),
        d >= 1,
        so.1 > 0,
        sn.1 > 0,
        e.1 > 0,
        e2.1 > 0,
        slope_le(e2, e),
        pn != Some(true) ==> slope_le(so, sn),
        last == max_col(d, e),
        last2 == max_col(d, e2),
        last2 <= last,
        c <= last2 + 1,
        pn is None ==> c == min_col(d, sn),
        pn is Some ==> slope_le(sn, slope_spec(d, c)) && slope_le(so, slope_spec(d, c)),
        pn == Some(false) ==> po == Some(false),
    ensures
        covered(
            scan_row(b2, q, d, sn, e2, c, last2, pn, fuel),
            scan_row(b, q, d, so, e, c, last, po, fuel),
            b,
            b2,
        ),
    decreases fuel, 2int, last2 + 1 - c,
{
    let new = scan_row(b2, q, d, sn, e2, c, last2, pn, fuel);
    let old = scan_row(b, q, d, so, e, c, last, po, fuel);
    if c > last2 {
        if pn == Some(false) && fuel > 0 {
            if c > last {
                lemma_more_blocking_cone(b, b2, q, d + 1, so, e, sn, e2, (fuel - 1) as nat);
            } else {
                lemma_max_col_corners(d, e2, c);
                lemma_floor_run(b, q, d, e, c, last, so, e2, fuel);
                lemma_more_blocking_cone(b, b2, q, d + 1, so, e2, sn, e2, (fuel - 1) as nat);
                lemma_covered_trans(new, scan_spec(b, q, d + 1, so, e2, (fuel - 1) as nat), old, b, b2);
            }
        }
    } else {
        let pos = transform_spec(q, d, c);
        let wall2 = b2(pos);
        let wall = b(pos);
        let here2 = if wall2 || symmetric_spec(d, sn, e2, c) {
            seq![pos]
        } else {
            Seq::empty()
        };
        let sn2 = if pn == Some(true) && !wall2 {
            slope_spec(d, c)
        } else {
            sn
        };
        let child2 = if pn == Some(false) && wall2 && fuel > 0 {
            scan_spec(b2, q, d + 1, sn2, slope_spec(d, c), (fuel - 1) as nat)
        } else {
            Seq::empty()
        };
        let rest2 = scan_row(b2, q, d, sn2, e2, c + 1, last2, Some(wall2), fuel);
        let here = if wall || symmetric_spec(d, so, e, c) {
            seq![pos]
        } else {
            Seq::empty()
        };
        let so2 = if po == Some(true) && !wall {
            slope_spec(d, c)
        } else {
            so
        };
        let child = if po == Some(false) && wall && fuel > 0 {
            scan_spec(b, q, d + 1, so2, slope_spec(d, c), (fuel - 1) as nat)
        } else {
            Seq::empty()
        };
        let rest = scan_row(b, q, d, so2, e, c + 1, last, Some(wall), fuel);
        assert(new == here2 + child2 + rest2);
        assert(old == here + child + rest);
        lemma_concat_contains(here, child);
        lemma_concat_contains(here + child, rest);
        lemma_concat_contains(here2, child2);
        lemma_concat_contains(here2 + child2, rest2);
        lemma_max_col_corners(d, e, c);
        lemma_slope_mono(d, c, c + 1);
        lemma_min_col_corners(d, sn, c);
        lemma_min_col_corners(d, sn, c + 1);
        // what this column marks
        if !wall2 && symmetric_spec(d, sn, e2, c) {
            lemma_sym_mono(d, so, sn, e, e2, c);
        }
        assert(covered(here2, old, b, b2));
        // the cone split off at this column
        if pn == Some(false) && wall2 && fuel > 0 {
            if wall {
                lemma_more_blocking_cone(b, b2, q, d + 1, so, slope_spec(d, c), sn, slope_spec(d, c), (fuel - 1) as nat);
            } else {
                lemma_floor_run(b, q, d, e, c + 1, last, so, slope_spec(d, c), fuel);
                lemma_more_blocking_cone(b, b2, q, d + 1, so, slope_spec(d, c), sn, slope_spec(d, c), (fuel - 1) as nat);
                lemma_covered_trans(
                    child2,
                    scan_spec(b, q, d + 1, so, slope_spec(d, c), (fuel - 1) as nat),
                    rest,
                    b,
                    b2,
                );
            }
        }
        assert(covered(child2, old, b, b2));
        // the rest of the row
        if pn is Some {
            lemma_le_trans(sn, slope_spec(d, c), slope_spec(d, c + 1));
            lemma_le_trans(so, slope_spec(d, c), slope_spec(d, c + 1));
        } else {
            lemma_le_trans(so, sn, slope_spec(d, c + 1));
        }
        match pn {
            None => {
                assert(slope_le(slope_spec(d, c), sn));
            },
            Some(prev_wall) => {
                if !prev_wall {
                    assert(pn == Some(false));
                    assert(po == Some(false));
                }
            },
        }
        lemma_row_sim(b, b2, q, d, e, e2, c + 1, last, last2, so2, Some(wall), sn2, Some(wall2), fuel);
        assert(covered(rest2, old, b, b2));
    }
}

/// Narrowing a cone and adding occluders, the scan one row at a time marks
/// nothing new but the added occluders.
pub proof fn lemma_more_blocking_cone(
    b: spec_fn((int, int)) -> bool,
    b2: spec_fn((int, int)) -> bool,
    q: Quadrant,
    d: int,
    s: (int, int),
    e: (int, int),
    s2: (int, int),
    e2: (int, int),
    fuel: nat,
)
    requires
        more_blocking(b, b2),
        d >= 1,
        s.1 > 0,
        e.1 > 0,
        s2.1 > 0,
        e2.1 > 0,
        slope_le(s, s2),
        slope_le(e2, e),
    ensures
        covered(scan_spec(b2, q, d, s2, e2, fuel), scan_spec(b, q, d, s, e, fuel), b, b2),
    decreases fuel, 3int, 0int,
{
    let first = min_col(d, s);
    let last = max_col(d, e);
    let first2 = min_col(d, s2);
    let last2 = max_col(d, e2);
    lemma_min_col_mono(d, s, s2);
    lemma_max_col_mono(d, e, e2);
    if first2 <= last2 {
        let r = lemma_advance(b, q, d, e, first, last, s, None, fuel, first2, s2);
        lemma_row_sim(b, b2, q, d, e, e2, first2, last, last2, r.0, r.1, s2, None, fuel);
        lemma_covered_trans(
            scan_spec(b2, q, d, s2, e2, fuel),
            scan_row(b, q, d, r.0, e, first2, last, r.1, fuel),
            scan_spec(b, q, d, s, e, fuel),
            b,
            b2,
        );
    }
}

proof fn lemma_quadrants_more_blocking(
    b: spec_fn((int, int)) -> bool,
    b2: spec_fn((int, int)) -> bool,
    origin: Pos,
    n: int,
    fuel: nat,
)
    requires
        more_blocking(b, b2),
    ensures
        covered(quadrants_spec(b2, origin, n, fuel), quadrants_spec(b, origin, n, fuel), b, b2),
    decreases n,
{
    if n > 0 {
        let q = quadrant_of(cardinal_of(n - 1), origin);
        lemma_quadrants_more_blocking(b, b2, origin, n - 1, fuel);
        lemma_more_blocking_cone(b, b2, q, 1, (-1, 1), (1, 1), (-1, 1), (1, 1), fuel);
        lemma_concat_contains(quadrants_spec(b2, origin, n - 1, fuel), scan_spec(b2, q, 1, (-1, 1), (1, 1), fuel));
        lemma_concat_contains(quadrants_spec(b, origin, n - 1, fuel), scan_spec(b, q, 1, (-1, 1), (1, 1), fuel));
    }
}

/// With the same fuel, a field of view over more occluders holds nothing
/// that the one over fewer lacks, but the added occluders.
pub proof fn lemma_fov_more_blocking(
    b: spec_fn((int, int)) -> bool,
    b2: spec_fn((int, int)) -> bool,
    origin: Pos,
    fuel: nat,
)
    requires
        more_blocking(b, b2),
    ensures
        covered(fov_spec(b2, origin, fuel), fov_spec(b, origin, fuel), b, b2),
{
    lemma_quadrants_more_blocking(b, b2, origin, 4, fuel);
    lemma_concat_contains(seq![pos_view(origin)], quadrants_spec(b2, origin, 4, fuel));
    lemma_concat_contains(seq![pos_view(origin)], quadrants_spec(b, origin, 4, fuel));
}

proof fn lemma_positions_view_contains(s: Seq<Pos>, p: Pos)
    ensures
        s.contains(p) <==> positions_view(s).contains(pos_view(p)),
{
    if s.contains(p) {
        let k = choose|k: int| 0 <= k < s.len() && s[k] == p;
        assert(positions_view(s)[k] == pos_view(p));
    }
    if positions_view(s).contains(pos_view(p)) {
        let k = choose|k: int| 0 <= k < positions_view(s).len() && positions_view(s)[k] == pos_view(p);
        assert(pos_view(s[k]) == pos_view(p));
        assert(s[k] == p);
    }
}

/// Adding occluders never makes a position visible that was not before,
/// except the added occluders themselves: every position that
/// `compute_fov` marks over `b2` it also marks over `b`, or `b2` blocks it
/// where `b` does not.
pub proof fn lemma_added_occluders_reveal_nothing(
    b: spec_fn((int, int)) -> bool,
    b2: spec_fn((int, int)) -> bool,
    origin: Pos,
    marks: Seq<Pos>,
    marks2: Seq<Pos>,
)
    requires
        more_blocking(b, b2),
        exists|radius: int| radius_ok(b, origin, radius),
        exists|radius: int| radius_ok(b2, origin, radius),
        positions_view(marks) == fov_spec(b, origin, fov_radius(b, origin) as nat),
        positions_view(marks2) == fov_spec(b2, origin, fov_radius(b2, origin) as nat),
    ensures
        forall|p: Pos|
            #[trigger] marks2.contains(p) ==> marks.contains(p) || (b2(pos_view(p)) && !b(
                pos_view(p),
            )),
{
    let r = fov_radius(b, origin);
    let r2 = fov_radius(b2, origin);
    assert(radius_ok(b, origin, r));
    assert(radius_ok(b2, origin, r2));
    assert(bounded_by(b2, pos_view(origin), r)) by {
        assert forall|x: int, y: int|
            fits_isize(x) && fits_isize(y) && (x - origin.0 > r || origin.0 - x > r || y - origin.1 > r
                || origin.1 - y > r) implies #[trigger] b2((x, y)) by {
            assert(b((x, y)));
        }
    }
    if r <= r2 {
        lemma_fov_fuel_irrelevant(b2, origin, r, r as nat, r2 as nat);
    } else {
        lemma_fov_fuel_irrelevant(b2, origin, r2, r as nat, r2 as nat);
    }
    lemma_fov_more_blocking(b, b2, origin, r as nat);
    assert forall|p: Pos| #[trigger] marks2.contains(p) implies marks.contains(p) || (b2(pos_view(p)) && !b(
        pos_view(p),
    )) by {
        lemma_positions_view_contains(marks2, p);
        lemma_positions_view_contains(marks, p);
    }
}

} // verus!
