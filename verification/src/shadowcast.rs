use vstd::prelude::*;

use crate::base::{Matrix, Point, abs1, cheb_dist, dist_sq, lemma_mul_i32_bound};

verus! {

use vstd::pervasive::VecAdditionalExecFns;
use vstd::arithmetic::div_mod::{
    lemma_fundamental_div_mod,
    lemma_fundamental_div_mod_converse,
    lemma_mod_division_less_than_divisor,
};

/// The default light budget a sweep starts from.
pub const INITIAL_VISIBILITY: i32 = 100;

/// Per-cell losses that give roughly circular visible disks of radius 1..=7
/// when standing in uniform semi-transparent terrain.
pub const VISIBILITY_LOSSES: [i32; 7] = [100, 75, 45, 30, 24, 19, 15];

/// The largest radius a `Vision` can be built with: the scratch matrix has
/// `(2 * radius + 1)^2` cells, which must stay within `i32` range.
pub const MAX_RADIUS: i32 = 23169;

/// Quotient rounded toward negative infinity.
pub open spec fn floor_div(a: int, b: int) -> int {
    if b >= 0 {
        a / b
    } else {
        (-a) / (-b)
    }
}

/// Quotient rounded toward positive infinity.
pub open spec fn ceil_div(a: int, b: int) -> int {
    -floor_div(-a, b)
}

/// The defining property of the floor quotient, for a positive divisor.
pub proof fn lemma_floor_div_pos(a: int, b: int)
    requires
        b > 0,
    ensures
        b * floor_div(a, b) <= a < b * floor_div(a, b) + b,
{
    lemma_fundamental_div_mod(a, b);
    lemma_mod_division_less_than_divisor(a, b);
}

/// Any quotient satisfying the floor property is the floor quotient.
pub proof fn lemma_floor_div_unique(a: int, b: int, q: int)
    requires
        b > 0,
        b * q <= a < b * q + b,
    ensures
        q == floor_div(a, b),
{
    let r = a - b * q;
    assert(a == q * b + r) by (nonlinear_arith)
        requires
            r == a - b * q,
    ;
    lemma_fundamental_div_mod_converse(a, b, q, r);
}

/// The defining property of the ceiling quotient, for a positive divisor.
pub proof fn lemma_ceil_div_pos(a: int, b: int)
    requires
        b > 0,
    ensures
        b * ceil_div(a, b) - b < a <= b * ceil_div(a, b),
{
    lemma_floor_div_pos(-a, b);
    assert(b * -floor_div(-a, b) == -(b * floor_div(-a, b))) by (nonlinear_arith);
}

/// Floor division of `i64` values in a safe range, with a positive divisor.
fn div_floor_i64(lhs: i64, rhs: i64) -> (r: i64)
    requires
        0 < rhs <= 0x4000_0000_0000_0000,
        -0x4000_0000_0000_0000 <= lhs <= 0x4000_0000_0000_0000,
    ensures
        r == floor_div(lhs as int, rhs as int),
        -0x4000_0000_0000_0000 <= r <= 0x4000_0000_0000_0000,
{
    proof {
        lemma_floor_div_pos(lhs as int, rhs as int);
    }
    if lhs >= 0 {
        proof {
            lemma_floor_div_unique(lhs as int, rhs as int, lhs as int / rhs as int);
        }
        lhs / rhs
    } else {
        // floor(lhs / rhs) == -ceil(-lhs / rhs) == -((-lhs + rhs - 1) / rhs)
        let n = -lhs;
        let t = (n + (rhs - 1)) / rhs;
        proof {
            let a = lhs as int;
            let b = rhs as int;
            let ti = (n + rhs - 1) as int / b;
            lemma_floor_div_pos((n + rhs - 1) as int, b);
            assert(b * ti <= -a + b - 1 < b * ti + b);
            assert(b * (-ti) == -(b * ti)) by (nonlinear_arith);
            assert(b * (-ti) <= a < b * (-ti) + b);
            lemma_floor_div_unique(a, b, -ti);
            assert(-0x4000_0000_0000_0000 <= -ti <= 0x4000_0000_0000_0000) by (nonlinear_arith)
                requires
                    b >= 1,
                    b * (-ti) <= a < b * (-ti) + b,
                    -0x4000_0000_0000_0000 <= a <= 0x4000_0000_0000_0000,
            ;
        }
        -t
    }
}

/// Ceiling division of `i64` values in a safe range, with a positive divisor.
fn div_ceil_i64(lhs: i64, rhs: i64) -> (r: i64)
    requires
        0 < rhs <= 0x4000_0000_0000_0000,
        -0x4000_0000_0000_0000 <= lhs <= 0x4000_0000_0000_0000,
    ensures
        r == ceil_div(lhs as int, rhs as int),
        -0x4000_0000_0000_0000 <= r <= 0x4000_0000_0000_0000,
{
    let q = div_floor_i64(-lhs, rhs);
    proof {
        assert(ceil_div(lhs as int, rhs as int) == -floor_div(-lhs as int, rhs as int));
    }
    -q
}

/// Floor division of signed integers (toward negative infinity).
pub fn div_floor(lhs: i32, rhs: i32) -> (r: i32)
    requires
        rhs != 0,
        !(lhs == i32::MIN && rhs == -1),
    ensures
        r == floor_div(lhs as int, rhs as int),
{
    let (a, b): (i64, i64) = if rhs < 0 {
        (-(lhs as i64), -(rhs as i64))
    } else {
        (lhs as i64, rhs as i64)
    };
    let q = div_floor_i64(a, b);
    proof {
        lemma_floor_div_pos(a as int, b as int);
        assert(i32::MIN <= q <= i32::MAX) by (nonlinear_arith)
            requires
                b >= 1,
                q == floor_div(a as int, b as int),
                b * q <= a < b * q + b,
                -0x8000_0000 <= a <= 0x8000_0000,
                (a == 0x8000_0000 ==> b >= 2),
        ;
    }
    q as i32
}

/// Ceiling division of signed integers (toward positive infinity).
pub fn div_ceil(lhs: i32, rhs: i32) -> (r: i32)
    requires
        rhs != 0,
        !(lhs == i32::MIN && rhs == -1),
    ensures
        r == ceil_div(lhs as int, rhs as int),
{
    let (a, b): (i64, i64) = if rhs < 0 {
        (-(lhs as i64), -(rhs as i64))
    } else {
        (lhs as i64, rhs as i64)
    };
    // ceil(lhs / rhs) == ceil(a / b) after sign normalization
    let q = div_ceil_i64(a, b);
    proof {
        lemma_ceil_div_pos(a as int, b as int);
        assert(i32::MIN <= q <= i32::MAX) by (nonlinear_arith)
            requires
                b >= 1,
                q == ceil_div(a as int, b as int),
                b * q - b < a <= b * q,
                -0x8000_0000 <= a <= 0x8000_0000,
                (a == 0x8000_0000 ==> b >= 2),
        ;
    }
    q as i32
}

/// Widths at depth `d` spanned from the low end of a slope in [-1, 1] stay
/// within [-d, d].
proof fn lemma_span_floor(n: int, den: int, d: int)
    requires
        den > 0,
        d >= 1,
        -den <= n <= den,
    ensures
        -d <= floor_div(2 * n * d + den, 2 * den) <= d,
{
    let q = floor_div(2 * n * d + den, 2 * den);
    lemma_floor_div_pos(2 * n * d + den, 2 * den);
    assert(-d <= q <= d) by (nonlinear_arith)
        requires
            den > 0,
            d >= 1,
            -den <= n <= den,
            2 * den * q <= 2 * n * d + den < 2 * den * q + 2 * den,
    ;
}

/// Widths at depth `d` spanned up to the high end of a slope in [-1, 1] stay
/// within [-d, d].
proof fn lemma_span_ceil(n: int, den: int, d: int)
    requires
        den > 0,
        d >= 1,
        -den <= n <= den,
    ensures
        -d <= ceil_div(2 * n * d - den, 2 * den) <= d,
{
    let q = ceil_div(2 * n * d - den, 2 * den);
    lemma_ceil_div_pos(2 * n * d - den, 2 * den);
    assert(-d <= q <= d) by (nonlinear_arith)
        requires
            den > 0,
            d >= 1,
            -den <= n <= den,
            2 * den * q - 2 * den < 2 * n * d - den <= 2 * den * q,
    ;
}

/// An interval with its low end at least -1 and its high end at most 1,
/// ordered low to high, has both ends within [-1, 1].
proof fn lemma_clip_bounds(min: Slope, max: Slope)
    requires
        min.den > 0,
        max.den > 0,
        -min.den <= min.num,
        max.num <= max.den,
        min.num * max.den <= max.num * min.den,
    ensures
        -max.den <= max.num,
        min.num <= min.den,
{
    lemma_rat_le_trans(-1, 1, min.num as int, min.den as int, max.num as int, max.den as int);
    assert((-1) * max.den <= max.num * 1);
    lemma_rat_le_trans(min.num as int, min.den as int, max.num as int, max.den as int, 1, 1);
    assert(min.num * 1 <= 1 * min.den);
}

/// Transitivity of the cross-product order on fractions with positive
/// denominators.
proof fn lemma_rat_le_trans(an: int, ad: int, bn: int, bd: int, cn: int, cd: int)
    requires
        ad > 0,
        bd > 0,
        cd > 0,
        an * bd <= bn * ad,
        bn * cd <= cn * bd,
    ensures
        an * cd <= cn * ad,
{
    assert(an * cd <= cn * ad) by (nonlinear_arith)
        requires
            ad > 0,
            bd > 0,
            cd > 0,
            an * bd <= bn * ad,
            bn * cd <= cn * bd,
    ;
}

/// The floor quotient is at most `y` when the dividend is below `b * (y+1)`.
proof fn lemma_floor_le(a: int, b: int, y: int)
    requires
        b > 0,
        a < b * (y + 1),
    ensures
        floor_div(a, b) <= y,
{
    lemma_floor_div_pos(a, b);
    assert(floor_div(a, b) <= y) by (nonlinear_arith)
        requires
            b > 0,
            a < b * (y + 1),
            b * floor_div(a, b) <= a,
    ;
}

/// The ceiling quotient is at least `y` when the dividend is above `b * (y-1)`.
proof fn lemma_ceil_ge(a: int, b: int, y: int)
    requires
        b > 0,
        a > b * (y - 1),
    ensures
        ceil_div(a, b) >= y,
{
    lemma_ceil_div_pos(a, b);
    assert(ceil_div(a, b) >= y) by (nonlinear_arith)
        requires
            b > 0,
            a > b * (y - 1),
            a <= b * ceil_div(a, b),
    ;
}

/// An integer whose square is within the rounded disk bound lies within the
/// radius itself.
proof fn lemma_sq_within(a: int, r: int)
    requires
        r >= 0,
        a * a <= r * r + r,
    ensures
        -r <= a <= r,
{
    assert(-r <= a <= r) by (nonlinear_arith)
        requires
            r >= 0,
            a * a <= r * r + r,
    ;
}

/// A strict cross-product bound composed with a non-strict one stays strict.
proof fn lemma_rat_lt_le_trans(an: int, ad: int, bn: int, bd: int, cn: int, cd: int)
    requires
        ad > 0,
        bd > 0,
        cd > 0,
        an * bd < bn * ad,
        bn * cd <= cn * bd,
    ensures
        an * cd < cn * ad,
{
    assert(an * cd < cn * ad) by (nonlinear_arith)
        requires
            ad > 0,
            bd > 0,
            cd > 0,
            an * bd < bn * ad,
            bn * cd <= cn * bd,
    ;
}

/// A rational slope `num / den`; every slope the sweep builds has `den > 0`.
#[derive(Clone, Copy, Debug)]
struct Slope {
    num: i32,
    den: i32,
}

/// `a <= b` as rationals, by cross product; sound when both dens are positive.
spec fn slope_le_spec(a: Slope, b: Slope) -> bool {
    a.num * b.den <= b.num * a.den
}

spec fn slope_lt_spec(a: Slope, b: Slope) -> bool {
    a.num * b.den < b.num * a.den
}

spec fn slope_eq_spec(a: Slope, b: Slope) -> bool {
    a.num * b.den == b.num * a.den
}

fn slope_le(a: Slope, b: Slope) -> (r: bool)
    ensures
        r == slope_le_spec(a, b),
{
    proof {
        lemma_mul_i32_bound(a.num as int, b.den as int);
        lemma_mul_i32_bound(b.num as int, a.den as int);
    }
    (a.num as i64) * (b.den as i64) <= (b.num as i64) * (a.den as i64)
}

fn slope_lt(a: Slope, b: Slope) -> (r: bool)
    ensures
        r == slope_lt_spec(a, b),
{
    proof {
        lemma_mul_i32_bound(a.num as int, b.den as int);
        lemma_mul_i32_bound(b.num as int, a.den as int);
    }
    (a.num as i64) * (b.den as i64) < (b.num as i64) * (a.den as i64)
}

fn slope_eq(a: Slope, b: Slope) -> (r: bool)
    ensures
        r == slope_eq_spec(a, b),
{
    proof {
        lemma_mul_i32_bound(a.num as int, b.den as int);
        lemma_mul_i32_bound(b.num as int, a.den as int);
    }
    (a.num as i64) * (b.den as i64) == (b.num as i64) * (a.den as i64)
}

/// The rationally larger slope; the first argument on ties.
fn slope_max(a: Slope, b: Slope) -> (r: Slope)
    ensures
        r == (if slope_lt_spec(a, b) {
            b
        } else {
            a
        }),
{
    if slope_lt(a, b) {
        b
    } else {
        a
    }
}

/// The rationally smaller slope; the first argument on ties.
fn slope_min(a: Slope, b: Slope) -> (r: Slope)
    ensures
        r == (if slope_lt_spec(b, a) {
            b
        } else {
            a
        }),
{
    if slope_lt(b, a) {
        b
    } else {
        a
    }
}

/// The four axis-aligned frames the sweep reuses; a quadrant maps the
/// canonical frame `(depth, width)` onto the grid.
#[derive(Clone, Copy, Debug, PartialEq, Eq, Structural)]
enum Quadrant {
    PlusX,
    PlusY,
    MinusX,
    MinusY,
}

spec fn qmul_x(q: Quadrant, x: int, y: int) -> int {
    match q {
        Quadrant::PlusX => x,
        Quadrant::PlusY => -y,
        Quadrant::MinusX => -x,
        Quadrant::MinusY => y,
    }
}

spec fn qmul_y(q: Quadrant, x: int, y: int) -> int {
    match q {
        Quadrant::PlusX => y,
        Quadrant::PlusY => x,
        Quadrant::MinusX => -y,
        Quadrant::MinusY => -x,
    }
}

/// Apply a quadrant's transform to a vector.
fn qmul(q: Quadrant, p: Point) -> (r: Point)
    requires
        p.0 > i32::MIN,
        p.1 > i32::MIN,
    ensures
        r.0 == qmul_x(q, p.0 as int, p.1 as int),
        r.1 == qmul_y(q, p.0 as int, p.1 as int),
{
    match q {
        Quadrant::PlusX => Point(p.0, p.1),
        Quadrant::PlusY => Point(-p.1, p.0),
        Quadrant::MinusX => Point(-p.0, -p.1),
        Quadrant::MinusY => Point(p.1, -p.0),
    }
}

spec fn spec_qinv(q: Quadrant) -> Quadrant {
    match q {
        Quadrant::PlusX => Quadrant::PlusX,
        Quadrant::PlusY => Quadrant::MinusY,
        Quadrant::MinusX => Quadrant::MinusX,
        Quadrant::MinusY => Quadrant::PlusY,
    }
}

/// The inverse of a quadrant's transform (they are orthogonal, so the
/// inverse is the transpose).
fn qinv(q: Quadrant) -> (r: Quadrant)
    ensures
        r == spec_qinv(q),
{
    match q {
        Quadrant::PlusX => Quadrant::PlusX,
        Quadrant::PlusY => Quadrant::MinusY,
        Quadrant::MinusX => Quadrant::MinusX,
        Quadrant::MinusY => Quadrant::PlusY,
    }
}

/// A quadrant's transform undoes its inverse.
proof fn lemma_qinv_roundtrip(q: Quadrant, x: int, y: int)
    ensures
        qmul_x(q, qmul_x(spec_qinv(q), x, y), qmul_y(spec_qinv(q), x, y)) == x,
        qmul_y(q, qmul_x(spec_qinv(q), x, y), qmul_y(spec_qinv(q), x, y)) == y,
{
}

/// Rotation by roughly +60 degrees, scaled by 65.
fn rot_left(p: Point) -> (r: Point)
    requires
        -0x100_0000 <= p.0 <= 0x100_0000,
        -0x100_0000 <= p.1 <= 0x100_0000,
    ensures
        r.0 == 33 * p.0 - 56 * p.1,
        r.1 == 56 * p.0 + 33 * p.1,
{
    Point(33 * p.0 - 56 * p.1, 56 * p.0 + 33 * p.1)
}

/// Rotation by roughly -60 degrees, scaled by 65.
fn rot_right(p: Point) -> (r: Point)
    requires
        -0x100_0000 <= p.0 <= 0x100_0000,
        -0x100_0000 <= p.1 <= 0x100_0000,
    ensures
        r.0 == 33 * p.0 + 56 * p.1,
        r.1 == -56 * p.0 + 33 * p.1,
{
    Point(33 * p.0 + 56 * p.1, -56 * p.0 + 33 * p.1)
}

/// A slope interval in one quadrant, with the light budget entering it.
#[derive(Clone, Copy, Debug)]
struct SlopeRange {
    min: Slope,
    max: Slope,
    quadrant: Quadrant,
    visibility: i32,
}

/// Well-formedness of a work item: positive denominators, both bounds within
/// [-1, 1] as rationals, and a positive budget within the initial one.
spec fn range_wf(r: SlopeRange) -> bool {
    &&& r.min.den > 0
    &&& r.max.den > 0
    &&& -r.min.den <= r.min.num <= r.min.den
    &&& -r.max.den <= r.max.num <= r.max.den
    &&& r.min.num * r.max.den < r.max.num * r.min.den
    &&& 0 < r.visibility <= INITIAL_VISIBILITY
}

/// The full slope interval (-1, 1) of one quadrant, carrying the initial
/// budget: what a sweep without a facing direction seeds.
spec fn full_range(q: Quadrant) -> SlopeRange {
    SlopeRange {
        min: Slope { num: -1i32, den: 1i32 },
        max: Slope { num: 1i32, den: 1i32 },
        quadrant: q,
        visibility: INITIAL_VISIBILITY,
    }
}

/// One depth row's work list.
#[derive(Debug)]
struct SlopeRanges {
    depth: i32,
    items: Vec<SlopeRange>,
}

/// The residual visibility a swept cell receives when the sweep reaches it
/// carrying budget `vis`, at `(depth, width) == (d, w)` in the quadrant
/// frame: zero opacity passes the budget through, opacity at or above the
/// budget blocks (the cell is lit at zero and passes nothing on), and partial
/// opacity costs `o` weighted by the slope-dependent path length
/// `1 + |w| / (2 * d)`, floored, clamped at zero.
pub open spec fn cell_light(vis: int, o: int, d: int, w: int) -> int {
    if o == 0 {
        vis
    } else if o >= vis {
        0
    } else {
        vstd::math::max(vis - (o + floor_div(o * abs1(w), 2 * d)), 0)
    }
}

/// The first width a slope interval's low end admits at depth `d`.
spec fn span_lo(s: Slope, d: int) -> int {
    floor_div(2 * s.num * d + s.den, 2 * s.den)
}

/// The last width a slope interval's high end admits at depth `d`.
spec fn span_hi(s: Slope, d: int) -> int {
    ceil_div(2 * s.num * d - s.den, 2 * s.den)
}

/// The world cell at `(d, w)` of a quadrant's frame, for a viewer at `eye`.
spec fn frame_cell(q: Quadrant, d: int, w: int, eye: Point) -> Point {
    Point((qmul_x(q, d, w) + eye.0) as i32, (qmul_y(q, d, w) + eye.1) as i32)
}

/// The value the model's visibility map yields at `p`: the recorded residual
/// for a lit cell, the unseen sentinel for every other point.
pub open spec fn light_at(m: Map<Point, int>, p: Point) -> int {
    if m.dom().contains(p) {
        m[p]
    } else {
        -1
    }
}

/// What appending an interval does to a row's output list: the tail is
/// extended in place when the new interval continues it with the same budget
/// in the same quadrant; otherwise the interval is appended.
spec fn push_model(items: Seq<SlopeRange>, s: SlopeRange) -> Seq<SlopeRange> {
    if items.len() > 0 && items.last().visibility == s.visibility && items.last().quadrant
        == s.quadrant && slope_eq_spec(items.last().max, s.min) {
        items.update(
            items.len() - 1,
            SlopeRange {
                min: items.last().min,
                max: s.max,
                quadrant: items.last().quadrant,
                visibility: items.last().visibility,
            },
        )
    } else {
        items.push(s)
    }
}

/// The classification of the cell at `(d, w)` of a quadrant frame: its
/// residual visibility when it lies in the rounded disk, the unseen sentinel
/// otherwise.
spec fn scan_cell<O: OpacityOracle>(
    o: O,
    eye: Point,
    radius: int,
    q: Quadrant,
    d: int,
    w: int,
    vis: int,
) -> int {
    if d * d + w * w <= radius * radius + radius {
        cell_light(vis, o.spec_opacity(frame_cell(q, d, w, eye)) as int, d, w)
    } else {
        -1
    }
}

/// One interval's walk over the widths `w..=fi` of its row at depth `d`,
/// threading the visibility map, the ordered seen list, the next row's output
/// list, the accumulated low end, and the previous cell's value.
spec fn scan_widths<O: OpacityOracle>(
    o: O,
    eye: Point,
    radius: int,
    range: SlopeRange,
    d: int,
    w: int,
    fi: int,
    cur_min: Slope,
    prev_v: int,
    vis: Map<Point, int>,
    seen: Seq<Point>,
    out: Seq<SlopeRange>,
) -> (Map<Point, int>, Seq<Point>, Seq<SlopeRange>, Slope, int)
    decreases vstd::math::max(fi + 1 - w, 0),
{
    if w > fi {
        (vis, seen, out, cur_min, prev_v)
    } else {
        let nv = scan_cell(o, eye, radius, range.quadrant, d, w, range.visibility as int);
        let cell = frame_cell(range.quadrant, d, w, eye);
        let vis1 = if nv >= 0 {
            vis.insert(cell, vstd::math::max(light_at(vis, cell), nv))
        } else {
            vis
        };
        let seen1 = if nv >= 0 && light_at(vis, cell) < 0 {
            seen.push(cell)
        } else {
            seen
        };
        let out1 = if prev_v != nv && prev_v > 0 {
            push_model(
                out,
                SlopeRange {
                    min: cur_min,
                    max: Slope { num: (2 * w - 1) as i32, den: (2 * d) as i32 },
                    quadrant: range.quadrant,
                    visibility: prev_v as i32,
                },
            )
        } else {
            out
        };
        let cur1 = if prev_v != nv && prev_v >= 0 {
            Slope { num: (2 * w - 1) as i32, den: (2 * d) as i32 }
        } else {
            cur_min
        };
        scan_widths(o, eye, radius, range, d, w + 1, fi, cur1, nv, vis1, seen1, out1)
    }
}

/// One interval's full row at depth `d`, with its surviving continuation
/// emitted onto the output list.
spec fn scan_range<O: OpacityOracle>(
    o: O,
    eye: Point,
    radius: int,
    range: SlopeRange,
    d: int,
    vis: Map<Point, int>,
    seen: Seq<Point>,
    out: Seq<SlopeRange>,
) -> (Map<Point, int>, Seq<Point>, Seq<SlopeRange>) {
    let r = scan_widths(
        o,
        eye,
        radius,
        range,
        d,
        span_lo(range.min, d),
        span_hi(range.max, d),
        range.min,
        -1,
        vis,
        seen,
        out,
    );
    if r.4 > 0 {
        (
            r.0,
            r.1,
            push_model(
                r.2,
                SlopeRange {
                    min: r.3,
                    max: range.max,
                    quadrant: range.quadrant,
                    visibility: r.4 as i32,
                },
            ),
        )
    } else {
        (r.0, r.1, r.2)
    }
}

/// One row's intervals from item `i` on, left to right.
spec fn scan_items<O: OpacityOracle>(
    o: O,
    eye: Point,
    radius: int,
    items: Seq<SlopeRange>,
    i: int,
    d: int,
    vis: Map<Point, int>,
    seen: Seq<Point>,
    out: Seq<SlopeRange>,
) -> (Map<Point, int>, Seq<Point>, Seq<SlopeRange>)
    decreases vstd::math::max(items.len() - i, 0),
{
    if i >= items.len() {
        (vis, seen, out)
    } else {
        let r = scan_range(o, eye, radius, items[i], d, vis, seen, out);
        scan_items(o, eye, radius, items, i + 1, d, r.0, r.1, r.2)
    }
}

/// The sweep from depth `d` outward to `limit`, one row at a time, while any
/// interval survives.
spec fn sweep_depths<O: OpacityOracle>(
    o: O,
    eye: Point,
    radius: int,
    limit: int,
    d: int,
    items: Seq<SlopeRange>,
    vis: Map<Point, int>,
    seen: Seq<Point>,
) -> (Map<Point, int>, Seq<Point>)
    decreases vstd::math::max(limit + 1 - d, 0),
{
    if d > limit || items.len() == 0 {
        (vis, seen)
    } else {
        let r = scan_items(o, eye, radius, items, 0, d, vis, seen, Seq::empty());
        sweep_depths(o, eye, radius, limit, d + 1, r.2, r.0, r.1)
    }
}

/// The rationally larger slope, the first on ties.
spec fn smax(a: Slope, b: Slope) -> Slope {
    if slope_lt_spec(a, b) {
        b
    } else {
        a
    }
}

/// The rationally smaller slope, the first on ties.
spec fn smin(a: Slope, b: Slope) -> Slope {
    if slope_lt_spec(b, a) {
        b
    } else {
        a
    }
}

/// The interval a facing cone leaves in one quadrant: the full interval when
/// there is no facing; `None` when the quadrant is excluded.
spec fn cone_seed(q: Quadrant, dir: Point) -> Option<(Slope, Slope)> {
    let min0 = Slope { num: -1i32, den: 1i32 };
    let max0 = Slope { num: 1i32, den: 1i32 };
    if dir.0 == 0 && dir.1 == 0 {
        Some((min0, max0))
    } else {
        let mx = qmul_x(spec_qinv(q), dir.0 as int, dir.1 as int);
        let my = qmul_y(spec_qinv(q), dir.0 as int, dir.1 as int);
        let lx = 33 * mx - 56 * my;
        let ly = 56 * mx + 33 * my;
        let rx = 33 * mx + 56 * my;
        let ry = -56 * mx + 33 * my;
        if mx < 0 {
            if my == 0 {
                None
            } else if my > 0 {
                if rx <= 0 {
                    None
                } else {
                    Some((smax(min0, Slope { num: ry as i32, den: rx as i32 }), max0))
                }
            } else {
                if lx <= 0 {
                    None
                } else {
                    Some((min0, smin(max0, Slope { num: ly as i32, den: lx as i32 })))
                }
            }
        } else {
            let max1 = if lx > 0 {
                smin(max0, Slope { num: ly as i32, den: lx as i32 })
            } else {
                max0
            };
            let min1 = if rx > 0 {
                smax(min0, Slope { num: ry as i32, den: rx as i32 })
            } else {
                min0
            };
            Some((min1, max1))
        }
    }
}

/// The slope interval one quadrant contributes to a sweep: the full interval,
/// clipped to the facing cone and to the single-target band; `None` when the
/// quadrant is excluded.
spec fn quadrant_seed(q: Quadrant, dir: Point, target: Option<Point>) -> Option<SlopeRange> {
    match cone_seed(q, dir) {
        None => None,
        Some(mm) => {
            let min1 = mm.0;
            let max1 = mm.1;
            match target {
            Some(t) => {
                let tx = qmul_x(spec_qinv(q), t.0 as int, t.1 as int);
                let ty = qmul_y(spec_qinv(q), t.0 as int, t.1 as int);
                if tx == 0 || tx < abs1(ty) {
                    None
                } else {
                    let min2 = smax(min1, Slope { num: (2 * ty - 1) as i32, den: (2 * tx) as i32 });
                    let max2 = smin(max1, Slope { num: (2 * ty + 1) as i32, den: (2 * tx) as i32 });
                    if slope_le_spec(max2, min2) {
                        None
                    } else {
                        Some(
                            SlopeRange {
                                min: min2,
                                max: max2,
                                quadrant: q,
                                visibility: INITIAL_VISIBILITY,
                            },
                        )
                    }
                }
            },
            None => {
                if slope_le_spec(max1, min1) {
                    None
                } else {
                    Some(
                        SlopeRange { min: min1, max: max1, quadrant: q, visibility: INITIAL_VISIBILITY },
                    )
                }
            },
            }
        },
    }
}

/// Append a quadrant's contribution, if it made one.
spec fn opt_push(items: Seq<SlopeRange>, r: Option<SlopeRange>) -> Seq<SlopeRange> {
    match r {
        Some(sr) => items.push(sr),
        None => items,
    }
}

/// The work list a sweep starts from: the four quadrants' contributions, in
/// their fixed order.
spec fn seeds_model(dir: Point, target: Option<Point>) -> Seq<SlopeRange> {
    opt_push(
        opt_push(
            opt_push(
                opt_push(Seq::empty(), quadrant_seed(Quadrant::PlusX, dir, target)),
                quadrant_seed(Quadrant::PlusY, dir, target),
            ),
            quadrant_seed(Quadrant::MinusX, dir, target),
        ),
        quadrant_seed(Quadrant::MinusY, dir, target),
    )
}

/// The complete field-of-view computation as a function of its inputs: the
/// visibility map and the ordered list of points first seen, produced by
/// sweeping the seeded intervals from depth one out to `limit` around a
/// viewer at `eye` whose own cell carries `init`.
pub closed spec fn fov_model<O: OpacityOracle>(
    o: O,
    eye: Point,
    dir: Point,
    radius: int,
    init: int,
    target: Option<Point>,
    limit: int,
) -> (Map<Point, int>, Seq<Point>) {
    sweep_depths(
        o,
        eye,
        radius,
        limit,
        1,
        seeds_model(dir, target),
        Map::empty().insert(eye, init),
        seq![eye],
    )
}

/// Append a range, merging with the tail when the interval continues it with
/// the same budget in the same quadrant.
fn push_range(items: &mut Vec<SlopeRange>, s: SlopeRange)
    requires
        forall|i: int| 0 <= i < old(items)@.len() ==> range_wf(#[trigger] old(items)@[i]),
        range_wf(s),
    ensures
        forall|i: int| 0 <= i < final(items)@.len() ==> range_wf(#[trigger] final(items)@[i]),
        final(items)@ == push_model(old(items)@, s),
{
    let n = items.len();
    if n > 0 {
        let last = items[n - 1];
        if last.visibility == s.visibility && last.quadrant == s.quadrant && slope_eq(
            last.max,
            s.min,
        ) {
            let merged = SlopeRange {
                min: last.min,
                max: s.max,
                quadrant: last.quadrant,
                visibility: last.visibility,
            };
            proof {
                // last.min < last.max == s.min < s.max, so the merged
                // interval is still strictly ordered.
                lemma_rat_lt_le_trans(last.min.num as int, last.min.den as int,
                    last.max.num as int, last.max.den as int, s.min.num as int, s.min.den as int);
                lemma_rat_lt_le_trans(last.min.num as int, last.min.den as int, s.min.num as int,
                    s.min.den as int, s.max.num as int, s.max.den as int);
            }
            items.set(n - 1, merged);
            return ;
        }
    }
    items.push(s);
}

/// The caller-supplied opacity oracle: a deterministic map from grid point to
/// opacity, in the same units as visibility.
pub trait OpacityOracle {
    /// The opacity this oracle reports at `p`.
    spec fn spec_opacity(&self, p: Point) -> i32;

    /// Report the opacity at `p`.
    fn opacity(&self, p: Point) -> (r: i32)
        ensures
            r == self.spec_opacity(p),
    ;
}

/// The inputs of one field-of-view computation.
pub struct VisionArgs<O: OpacityOracle> {
    /// The viewer's position.
    pub eye: Point,
    /// The facing direction; `(0, 0)` disables directional clipping.
    pub dir: Point,
    /// Opacity of each cell, in the same units as visibility.
    pub opacity_lookup: O,
    /// The visibility value assigned to the viewer's own cell.
    pub initial_visibility: i32,
}

/// An opacity oracle backed by a grid of per-cell opacities; cells outside
/// the grid report its default value.
pub struct MatrixOracle {
    opacities: Matrix<i32>,
}

impl MatrixOracle {
    #[verifier::type_invariant]
    spec fn type_inv(self) -> bool {
        self.opacities.wf()
    }

    pub fn new(opacities: Matrix<i32>) -> (r: MatrixOracle)
        requires
            opacities.wf(),
        ensures
            forall|p: Point| #[trigger] r.spec_opacity(p) == opacities.spec_get(p),
    {
        MatrixOracle { opacities }
    }
}

impl OpacityOracle for MatrixOracle {
    closed spec fn spec_opacity(&self, p: Point) -> i32 {
        self.opacities.spec_get(p)
    }

    fn opacity(&self, p: Point) -> (r: i32)
        ensures
            r == self.spec_opacity(p),
    {
        proof {
            use_type_invariant(self);
        }
        self.opacities.get(p)
    }
}

/// The viewer position leaves room for the radius on every side, so that
/// offset and translation arithmetic cannot overflow.
pub open spec fn eye_ok(pos: Point, radius: int) -> bool {
    &&& i32::MIN + radius < pos.0 <= i32::MAX - radius
    &&& i32::MIN + radius < pos.1 <= i32::MAX - radius
}

/// The facing direction is small enough for the cone rotations to stay in
/// `i32` range.
pub open spec fn dir_ok(dir: Point) -> bool {
    &&& -0x100_0000 <= dir.0 <= 0x100_0000
    &&& -0x100_0000 <= dir.1 <= 0x100_0000
}

/// Reusable scratch state for field-of-view sweeps around one radius.
pub struct Vision {
    radius: i32,
    offset: Point,
    points_seen: Vec<Point>,
    visibility: Matrix<i32>,
    prev: SlopeRanges,
    next: SlopeRanges,
}

impl Vision {
    /// The radius this scratch object was built for.
    pub closed spec fn spec_radius(self) -> int {
        self.radius as int
    }

    /// The points recorded as visible, in the order first observed.
    pub closed spec fn seen(self) -> Seq<Point> {
        self.points_seen@
    }

    /// The viewer position the scratch is currently centered on.
    pub closed spec fn eye_x(self) -> int {
        self.radius - self.offset.0
    }

    pub closed spec fn eye_y(self) -> int {
        self.radius - self.offset.1
    }

    /// The residual visibility recorded for world point `p`: the matrix cell
    /// it maps to, or -1 outside the scratch.
    pub closed spec fn spec_visibility_at(self, p: Point) -> int {
        let mx = p.0 + self.offset.0;
        let my = p.1 + self.offset.1;
        if 0 <= mx < self.visibility.size.0 && 0 <= my < self.visibility.size.1 {
            self.visibility.spec_get(Point(mx as i32, my as i32)) as int
        } else {
            -1
        }
    }

    /// `p` lies within the vision radius of the viewer: within the Chebyshev
    /// box and within the rounded Euclidean disk.
    pub closed spec fn in_disc(self, p: Point) -> bool {
        &&& abs1(p.0 - self.eye_x()) <= self.spec_radius()
        &&& abs1(p.1 - self.eye_y()) <= self.spec_radius()
        &&& (p.0 - self.eye_x()) * (p.0 - self.eye_x()) + (p.1 - self.eye_y()) * (p.1
            - self.eye_y()) <= self.spec_radius() * self.spec_radius() + self.spec_radius()
    }

    /// The scratch is consistent: the matrix has side `2 * radius + 1`, cell
    /// values are at least -1, the recorded points are exactly the cells with
    /// a nonnegative value, each appears once, and all lie within the radius.
    pub closed spec fn wf(self) -> bool {
        &&& 0 <= self.radius <= MAX_RADIUS
        &&& self.visibility.wf()
        &&& self.visibility.size.0 == 2 * self.radius + 1
        &&& self.visibility.size.1 == 2 * self.radius + 1
        &&& self.visibility.default == -1
        &&& i32::MIN + self.radius < self.eye_x() <= i32::MAX - self.radius
        &&& i32::MIN + self.radius < self.eye_y() <= i32::MAX - self.radius
        &&& forall|i: int|
            0 <= i < self.visibility.data@.len() ==> #[trigger] self.visibility.data@[i] >= -1
        &&& forall|i: int|
            0 <= i < self.points_seen@.len() ==> self.spec_visibility_at(
                #[trigger] self.points_seen@[i],
            ) >= 0
        &&& forall|p: Point| #[trigger] self.spec_visibility_at(p) >= 0 ==> self.points_seen@.contains(p)
        &&& forall|i: int, j: int|
            0 <= i < j < self.points_seen@.len() ==> self.points_seen@[i] != self.points_seen@[j]
        &&& forall|i: int|
            0 <= i < self.points_seen@.len() ==> self.in_disc(#[trigger] self.points_seen@[i])
    }

    /// The work lists are reset for a fresh sweep.
    pub closed spec fn sweep_ready(self) -> bool {
        &&& self.prev.depth == 1
        &&& self.next.depth == 2
        &&& self.prev.items@.len() == 0
        &&& self.next.items@.len() == 0
    }

    /// Build scratch state for sweeps of the given radius. Nothing is visible
    /// until a sweep runs.
    pub fn new(radius: i32) -> (r: Vision)
        requires
            0 <= radius <= MAX_RADIUS,
        ensures
            r.wf(),
            r.spec_radius() == radius,
            r.seen().len() == 0,
            forall|p: Point| r.spec_visibility_at(p) == -1,
    {
        proof {
            assert((2 * radius + 1) * (2 * radius + 1) <= i32::MAX) by (nonlinear_arith)
                requires
                    0 <= radius <= 23169,
            ;
        }
        let side = 2 * radius + 1;
        let size = Point(side, side);
        Vision {
            radius,
            offset: Point(0, 0),
            points_seen: Vec::new(),
            visibility: Matrix::new(size, -1),
            prev: SlopeRanges { depth: 0, items: Vec::new() },
            next: SlopeRanges { depth: 0, items: Vec::new() },
        }
    }

    /// Reset the scratch for a sweep from `pos` with the given starting
    /// visibility: afterwards `pos` is the only visible point, carrying
    /// exactly `visibility`.
    #[verifier::loop_isolation(false)]
    pub fn clear(&mut self, pos: Point, visibility: i32)
        requires
            old(self).wf(),
            visibility >= 0,
            eye_ok(pos, old(self).spec_radius()),
        ensures
            final(self).wf(),
            final(self).sweep_ready(),
            final(self).spec_radius() == old(self).spec_radius(),
            final(self).eye_x() == pos.0,
            final(self).eye_y() == pos.1,
            final(self).seen() == seq![pos],
            final(self).spec_visibility_at(pos) == visibility,
            forall|p: Point| p != pos ==> final(self).spec_visibility_at(p) == -1,
    {
        // Sparse reset has better constants only when few cells are lit.
        if self.visibility.data.len() / 16 < self.points_seen.len() {
            self.visibility.fill(-1);
        } else {
            let n = self.points_seen.len();
            let mut k: usize = 0;
            while k < n
                invariant
                    k <= n,
                    self.radius == old(self).radius,
                    self.offset == old(self).offset,
                    self.points_seen@ == old(self).points_seen@,
                    self.visibility.wf(),
                    self.visibility.size == old(self).visibility.size,
                    self.visibility.default == -1,
                    self.visibility.data@.len() == old(self).visibility.data@.len(),
                    forall|i: int|
                        0 <= i < self.visibility.data@.len() ==> #[trigger] self.visibility.data@[i]
                            >= -1,
                    forall|p: Point|
                        #[trigger] self.spec_visibility_at(p) >= 0 ==> exists|j: int|
                            k <= j < n && self.points_seen@[j] == p,
                decreases n - k,
            {
                let p = self.points_seen[k];
                proof {
                    assert(old(self).in_disc(old(self).points_seen@[k as int]));
                }
                let q = p.add(self.offset);
                let ghost pre = *self;
                self.visibility.set(q, -1);
                proof {
                    assert forall|i: int|
                        0 <= i < self.visibility.data@.len() implies #[trigger] self.visibility.data@[i] >= -1 by {
                        if pre.visibility.spec_contains(q) {
                            crate::base::lemma_row_major_bounds(q.0 as int, q.1 as int,
                                pre.visibility.size.0 as int, pre.visibility.size.1 as int);
                            if i != pre.visibility.spec_index_of(q) {
                                assert(self.visibility.data@[i] == pre.visibility.data@[i]);
                            }
                        } else {
                            assert(self.visibility.data@[i] == pre.visibility.data@[i]);
                        }
                    }
                    assert forall|pp: Point| #[trigger] self.spec_visibility_at(pp) >= 0 implies
                        exists|j: int| k + 1 <= j < n && self.points_seen@[j] == pp by {
                        let mx = pp.0 + self.offset.0;
                        let my = pp.1 + self.offset.1;
                        assert(pre.spec_visibility_at(pp) >= 0);
                        let j = choose|j: int| k <= j < n && pre.points_seen@[j] == pp;
                        if pp == p {
                            assert(Point(mx as i32, my as i32) == q);
                            assert(false);
                        } else {
                            assert(self.points_seen@[j] == pp);
                            assert(j != k);
                        }
                    }
                }
                k = k + 1;
            }
            proof {
                assert forall|i: int|
                    0 <= i < self.visibility.data@.len() implies #[trigger] self.visibility.data@[i]
                        == -1 by {
                    let sx = self.visibility.size.0 as int;
                    let sy = self.visibility.size.1 as int;
                    let qy = i / sx;
                    let qx = i % sx;
                    lemma_fundamental_div_mod(i, sx);
                    lemma_mod_division_less_than_divisor(i, sx);
                    assert(0 <= qx < sx);
                    assert(i == qx + qy * sx) by (nonlinear_arith)
                        requires
                            i == sx * qy + qx,
                    ;
                    assert(0 <= qy < sy) by (nonlinear_arith)
                        requires
                            0 <= i < sx * sy,
                            i == sx * qy + qx,
                            0 <= qx < sx,
                    ;
                    let pw = Point((qx - self.offset.0) as i32, (qy - self.offset.1) as i32);
                    assert(pw.0 == qx - self.offset.0 && pw.1 == qy - self.offset.1);
                    assert(self.visibility.spec_index_of(Point(qx as i32, qy as i32)) == i);
                    assert(self.spec_visibility_at(pw) == self.visibility.data@[i]);
                    if self.visibility.data@[i] >= 0 {
                        assert(false);
                    }
                }
            }
        }
        let center = Point(self.radius, self.radius);
        self.offset = center.sub(pos);
        self.points_seen.clear();
        proof {
            assert forall|q: Point|
                self.visibility.spec_contains(q) implies self.visibility.spec_get(q) == -1 by {
                crate::base::lemma_row_major_bounds(q.0 as int, q.1 as int,
                    self.visibility.size.0 as int, self.visibility.size.1 as int);
            }
        }
        let ghost m0 = self.visibility;
        self.visibility.set(center, visibility);
        self.points_seen.push(pos);
        self.prev.depth = 1;
        self.next.depth = 2;
        self.prev.items.clear();
        self.next.items.clear();
        proof {
            assert(self.seen() =~= seq![pos]);
            assert(self.spec_visibility_at(pos) == visibility);
            assert forall|p: Point| p != pos implies self.spec_visibility_at(p) == -1 by {
                let mx = p.0 + self.offset.0;
                let my = p.1 + self.offset.1;
                if 0 <= mx < self.visibility.size.0 && 0 <= my < self.visibility.size.1 {
                    let qpt = Point(mx as i32, my as i32);
                    assert(qpt != center);
                    assert(self.visibility.spec_get(qpt) == m0.spec_get(qpt));
                    assert(m0.spec_contains(qpt));
                }
            }
            assert forall|i: int|
                0 <= i < self.points_seen@.len() implies self.spec_visibility_at(
                #[trigger] self.points_seen@[i],
            ) >= 0 by {
                assert(self.points_seen@[i] == pos);
            }
            assert forall|i: int|
                0 <= i < self.visibility.data@.len() implies #[trigger] self.visibility.data@[i]
                    >= -1 by {
                crate::base::lemma_row_major_bounds(center.0 as int, center.1 as int,
                    m0.size.0 as int, m0.size.1 as int);
                if i != m0.spec_index_of(center) {
                    assert(self.visibility.data@[i] == m0.data@[i]);
                }
            }
            assert forall|p: Point| #[trigger] self.spec_visibility_at(p) >= 0 implies
                self.points_seen@.contains(p) by {
                if p != pos {
                    assert(self.spec_visibility_at(p) == -1);
                    assert(false);
                }
                assert(p == pos);
                assert(self.points_seen@[0] == pos);
            }
            assert(self.spec_radius() * self.spec_radius() + self.spec_radius() >= 0)
                by (nonlinear_arith)
                requires
                    self.spec_radius() >= 0,
            ;
            assert(pos.0 - self.eye_x() == 0 && pos.1 - self.eye_y() == 0);
            assert(self.in_disc(pos));
        }
    }

    /// Well-formedness does not depend on the sweep work lists.
    proof fn lemma_wf_same_scratch(a: Vision, b: Vision)
        requires
            a.wf(),
            b.radius == a.radius,
            b.offset == a.offset,
            b.points_seen == a.points_seen,
            b.visibility == a.visibility,
        ensures
            b.wf(),
    {
        assert forall|p: Point| #[trigger] b.spec_visibility_at(p) == a.spec_visibility_at(p) by {}
        assert forall|p: Point| #[trigger] b.in_disc(p) == a.in_disc(p) by {}
        assert forall|i: int|
            0 <= i < b.points_seen@.len() implies b.spec_visibility_at(
            #[trigger] b.points_seen@[i],
        ) >= 0 by {
            assert(a.spec_visibility_at(a.points_seen@[i]) >= 0);
        }
        assert forall|i: int|
            0 <= i < b.points_seen@.len() implies b.in_disc(#[trigger] b.points_seen@[i]) by {
            assert(a.in_disc(a.points_seen@[i]));
        }
    }

    /// Clip one quadrant's full interval to the 120-degree cone around the
    /// facing direction; `None` when the facing excludes the quadrant.
    #[verifier::rlimit(60)]
    fn cone_clip(q: Quadrant, dir: Point) -> (r: Option<(Slope, Slope)>)
        requires
            dir_ok(dir),
        ensures
            r == cone_seed(q, dir),
            (match r {
                Some(mm) => mm.0.den > 0 && mm.1.den > 0 && -mm.0.den <= mm.0.num && mm.1.num
                    <= mm.1.den,
                None => true,
            }),
    {
        let mut min = Slope { num: -1, den: 1 };
        let mut max = Slope { num: 1, den: 1 };
        if dir.0 != 0 || dir.1 != 0 {
            // Map the facing into this quadrant's frame and clip to the cone
            // bounded by the two near-60-degree rotations of it.
            let m = qmul(qinv(q), dir);
            // Map the facing into this quadrant's frame and clip to the cone
            // bounded by the two near-60-degree rotations of it.
            let m = qmul(qinv(q), dir);
            let l = rot_left(m);
            let rgt = rot_right(m);
            if m.0 < 0 {
                if m.1 == 0 {
                    return None;
                }
                if m.1 > 0 {
                    if rgt.0 <= 0 {
                        return None;
                    }
                    let s = Slope { num: rgt.1, den: rgt.0 };
                    proof {
                        if slope_lt_spec(min, s) {
                            lemma_rat_le_trans(-1, 1, min.num as int, min.den as int, s.num as int,
                                s.den as int);
                            assert((-1) * s.den <= s.num * 1);
                            assert(-s.den <= s.num);
                        }
                    }
                    min = slope_max(min, s);
                    proof {
                        assert(-min.den <= min.num);
                    }
                } else {
                    if l.0 <= 0 {
                        return None;
                    }
                    let s = Slope { num: l.1, den: l.0 };
                    proof {
                        if slope_lt_spec(s, max) {
                            lemma_rat_le_trans(s.num as int, s.den as int, max.num as int,
                                max.den as int, 1, 1);
                            assert(s.num * 1 <= 1 * s.den);
                            assert(s.num <= s.den);
                        }
                    }
                    max = slope_min(max, s);
                    proof {
                        assert(max.num <= max.den);
                    }
                }
            } else {
                if l.0 > 0 {
                    let s = Slope { num: l.1, den: l.0 };
                    proof {
                        if slope_lt_spec(s, max) {
                            lemma_rat_le_trans(s.num as int, s.den as int, max.num as int,
                                max.den as int, 1, 1);
                            assert(s.num * 1 <= 1 * s.den);
                            assert(s.num <= s.den);
                        }
                    }
                    max = slope_min(max, s);
                    proof {
                        assert(max.num <= max.den);
                    }
                }
                if rgt.0 > 0 {
                    let s = Slope { num: rgt.1, den: rgt.0 };
                    proof {
                        if slope_lt_spec(min, s) {
                            lemma_rat_le_trans(-1, 1, min.num as int, min.den as int, s.num as int,
                                s.den as int);
                            assert((-1) * s.den <= s.num * 1);
                            assert(-s.den <= s.num);
                        }
                    }
                    min = slope_max(min, s);
                    proof {
                        assert(-min.den <= min.num);
                    }
                }
            }
        }
        Some((min, max))
    }

    /// The slope interval one quadrant contributes to a fresh sweep: the full
    /// interval (-1, 1), clipped to the 120-degree cone around `dir` when a
    /// facing is given, and to the band around `target` in single-target
    /// mode. `None` when the quadrant is excluded entirely.
    #[verifier::rlimit(100)]
    fn quadrant_range(q: Quadrant, dir: Point, target: Option<Point>, radius: i32) -> (r: Option<
        SlopeRange,
    >)
        requires
            dir_ok(dir),
            0 <= radius <= MAX_RADIUS,
            target matches Some(t) ==> abs1(t.0 as int) <= radius && abs1(t.1 as int) <= radius,
        ensures
            r == quadrant_seed(q, dir, target),
            (match r {
                Some(sr) => range_wf(sr) && sr.quadrant == q,
                None => true,
            }),
            dir == (Point(0, 0)) && target is None ==> r == Some(full_range(q)),
            (match target {
                Some(t) => (dir == (Point(0, 0)) && qmul_x(spec_qinv(q), t.0 as int, t.1 as int)
                    >= 1 && abs1(qmul_y(spec_qinv(q), t.0 as int, t.1 as int)) <= qmul_x(
                    spec_qinv(q),
                    t.0 as int,
                    t.1 as int,
                )) ==> (match r {
                    Some(sr) => sr.visibility == INITIAL_VISIBILITY && span_lo(
                        sr.min,
                        qmul_x(spec_qinv(q), t.0 as int, t.1 as int),
                    ) <= qmul_y(spec_qinv(q), t.0 as int, t.1 as int) <= span_hi(
                        sr.max,
                        qmul_x(spec_qinv(q), t.0 as int, t.1 as int),
                    ),
                    None => false,
                }),
                None => true,
            }),
    {
        let clipped = Self::cone_clip(q, dir);
        if clipped.is_none() {
            return None;
        }
        let mm = clipped.unwrap();
        let mut min = mm.0;
        let mut max = mm.1;
        // In single-target mode keep only the thin band of slopes that can
        // reach the target, and only in the quadrant that contains it.
        if let Some(t) = target {
            let mt = qmul(qinv(q), t);
            let ay: i32 = if mt.1 < 0 {
                -mt.1
            } else {
                mt.1
            };
            if mt.0 == 0 || mt.0 < ay {
                return None;
            }
            let lo = Slope { num: 2 * mt.1 - 1, den: 2 * mt.0 };
            let hi = Slope { num: 2 * mt.1 + 1, den: 2 * mt.0 };
            proof {
                if slope_lt_spec(min, lo) {
                    lemma_rat_le_trans(-1, 1, min.num as int, min.den as int, lo.num as int,
                        lo.den as int);
                    assert((-1) * lo.den <= lo.num * 1);
                    assert(-lo.den <= lo.num);
                }
                if slope_lt_spec(hi, max) {
                    lemma_rat_le_trans(hi.num as int, hi.den as int, max.num as int, max.den as int,
                        1, 1);
                    assert(hi.num * 1 <= 1 * hi.den);
                    assert(hi.num <= hi.den);
                }
            }
            min = slope_max(min, lo);
            max = slope_min(max, hi);
            proof {
                assert(-min.den <= min.num);
                assert(max.num <= max.den);
                if dir.0 == 0 && dir.1 == 0 {
                    // With no cone, the band around the target is nonempty and
                    // its width span at the target's depth admits the target.
                    let mx = mt.0 as int;
                    let my = mt.1 as int;
                    if min == lo {
                        if max == hi {
                            assert(min.num * max.den < max.num * min.den) by (nonlinear_arith)
                                requires
                                    mx >= 1,
                                    min.num == 2 * my - 1,
                                    min.den == 2 * mx,
                                    max.num == 2 * my + 1,
                                    max.den == 2 * mx,
                            ;
                        } else {
                            assert(min.num * max.den < max.num * min.den) by (nonlinear_arith)
                                requires
                                    mx >= 1,
                                    my <= mx,
                                    min.num == 2 * my - 1,
                                    min.den == 2 * mx,
                                    max.num == 1,
                                    max.den == 1,
                            ;
                        }
                    } else {
                        if max == hi {
                            assert(min.num * max.den < max.num * min.den) by (nonlinear_arith)
                                requires
                                    mx >= 1,
                                    -mx <= my,
                                    min.num == -1,
                                    min.den == 1,
                                    max.num == 2 * my + 1,
                                    max.den == 2 * mx,
                            ;
                        } else {
                            assert(min.num * max.den < max.num * min.den);
                        }
                    }
                    assert(slope_lt_spec(min, max));
                    if min == lo {
                        assert(2 * min.num * mx + min.den < 2 * min.den * (my + 1))
                            by (nonlinear_arith)
                            requires
                                mx >= 1,
                                min.num == 2 * my - 1,
                                min.den == 2 * mx,
                        ;
                    } else {
                        assert(2 * min.num * mx + min.den < 2 * min.den * (my + 1))
                            by (nonlinear_arith)
                            requires
                                mx >= 1,
                                -mx <= my,
                                min.num == -1,
                                min.den == 1,
                        ;
                    }
                    lemma_floor_le(2 * min.num * mx + min.den, 2 * min.den, my);
                    if max == hi {
                        assert(2 * max.num * mx - max.den > 2 * max.den * (my - 1))
                            by (nonlinear_arith)
                            requires
                                mx >= 1,
                                max.num == 2 * my + 1,
                                max.den == 2 * mx,
                        ;
                    } else {
                        assert(2 * max.num * mx - max.den > 2 * max.den * (my - 1))
                            by (nonlinear_arith)
                            requires
                                mx >= 1,
                                my <= mx,
                                max.num == 1,
                                max.den == 1,
                        ;
                    }
                    lemma_ceil_ge(2 * max.num * mx - max.den, 2 * max.den, my);
                    assert(span_lo(min, mx) <= my);
                    assert(span_hi(max, mx) >= my);
                }
            }
        }
        if slope_le(max, min) {
            return None;
        }
        proof {
            assert(min.num * max.den < max.num * min.den);
            lemma_clip_bounds(min, max);
        }
        let out = SlopeRange { min, max, quadrant: q, visibility: INITIAL_VISIBILITY };
        proof {
            assert(out.min.den > 0);
            assert(out.max.den > 0);
            assert(-out.min.den <= out.min.num);
            assert(out.min.num <= out.min.den);
            assert(-out.max.den <= out.max.num);
            assert(out.max.num <= out.max.den);
            assert(0 < out.visibility <= INITIAL_VISIBILITY);
            assert(range_wf(out));
        }
        Some(out)
    }

    /// Seed the work list with the four quadrants' initial intervals.
    fn seed_ranges(&mut self, dir: Point, target: Option<Point>)
        requires
            old(self).wf(),
            dir_ok(dir),
            target matches Some(t) ==> abs1(t.0 as int) <= old(self).spec_radius() && abs1(
                t.1 as int,
            ) <= old(self).spec_radius(),
            old(self).prev.items@.len() == 0,
        ensures
            final(self).wf(),
            final(self).radius == old(self).radius,
            final(self).offset == old(self).offset,
            final(self).points_seen == old(self).points_seen,
            final(self).visibility == old(self).visibility,
            final(self).next == old(self).next,
            final(self).prev.depth == old(self).prev.depth,
            forall|i: int|
                0 <= i < final(self).prev.items@.len() ==> range_wf(
                    #[trigger] final(self).prev.items@[i],
                ),
            final(self).prev.items@ == seeds_model(dir, target),
            dir == (Point(0, 0)) && target is None ==> final(self).prev.items@ == seq![
                full_range(Quadrant::PlusX),
                full_range(Quadrant::PlusY),
                full_range(Quadrant::MinusX),
                full_range(Quadrant::MinusY),
            ],
            forall|t: Point, q: Quadrant|
                target == Some(t) && dir == (Point(0, 0)) && (#[trigger] qmul_x(
                    spec_qinv(q),
                    t.0 as int,
                    t.1 as int,
                )) >= 1 && abs1(qmul_y(spec_qinv(q), t.0 as int, t.1 as int)) <= qmul_x(
                    spec_qinv(q),
                    t.0 as int,
                    t.1 as int,
                ) ==> exists|k: int|
                    0 <= k < final(self).prev.items@.len() && (#[trigger] final(self).prev.items@[k]).quadrant
                        == q && final(self).prev.items@[k].visibility == INITIAL_VISIBILITY
                        && span_lo(
                        final(self).prev.items@[k].min,
                        qmul_x(spec_qinv(q), t.0 as int, t.1 as int),
                    ) <= qmul_y(spec_qinv(q), t.0 as int, t.1 as int) && qmul_y(
                        spec_qinv(q),
                        t.0 as int,
                        t.1 as int,
                    ) <= span_hi(
                        final(self).prev.items@[k].max,
                        qmul_x(spec_qinv(q), t.0 as int, t.1 as int),
                    ),
    {
        let radius = self.radius;
        let r0 = Self::quadrant_range(Quadrant::PlusX, dir, target, radius);
        let ghost k0 = self.prev.items@.len() as int;
        let ghost mut it0 = full_range(Quadrant::PlusX);
        if let Some(sr) = r0 {
            proof {
                it0 = sr;
                assert(r0 == Some(it0));
            }
            self.prev.items.push(sr);
        }
        let r1 = Self::quadrant_range(Quadrant::PlusY, dir, target, radius);
        let ghost k1 = self.prev.items@.len() as int;
        let ghost mut it1 = full_range(Quadrant::PlusY);
        if let Some(sr) = r1 {
            proof {
                it1 = sr;
                assert(r1 == Some(it1));
            }
            self.prev.items.push(sr);
        }
        let r2 = Self::quadrant_range(Quadrant::MinusX, dir, target, radius);
        let ghost k2 = self.prev.items@.len() as int;
        let ghost mut it2 = full_range(Quadrant::MinusX);
        if let Some(sr) = r2 {
            proof {
                it2 = sr;
                assert(r2 == Some(it2));
            }
            self.prev.items.push(sr);
        }
        let r3 = Self::quadrant_range(Quadrant::MinusY, dir, target, radius);
        let ghost k3 = self.prev.items@.len() as int;
        let ghost mut it3 = full_range(Quadrant::MinusY);
        if let Some(sr) = r3 {
            proof {
                it3 = sr;
                assert(r3 == Some(it3));
            }
            self.prev.items.push(sr);
        }
        proof {
            Self::lemma_wf_same_scratch(*old(self), *self);
            assert(self.prev.items@ =~= seeds_model(dir, target)) by {
                assert(old(self).prev.items@ =~= Seq::<SlopeRange>::empty());
                assert(r0 == quadrant_seed(Quadrant::PlusX, dir, target));
                assert(r1 == quadrant_seed(Quadrant::PlusY, dir, target));
                assert(r2 == quadrant_seed(Quadrant::MinusX, dir, target));
                assert(r3 == quadrant_seed(Quadrant::MinusY, dir, target));
            }
            if dir == (Point(0, 0)) && target.is_none() {
                assert(self.prev.items@ =~= seq![
                    full_range(Quadrant::PlusX),
                    full_range(Quadrant::PlusY),
                    full_range(Quadrant::MinusX),
                    full_range(Quadrant::MinusY),
                ]);
            }
            if target is Some && dir == (Point(0, 0)) {
                assert forall|t: Point, q: Quadrant|
                    target == Some(t) && dir == (Point(0, 0)) && (#[trigger] qmul_x(
                        spec_qinv(q),
                        t.0 as int,
                        t.1 as int,
                    )) >= 1 && abs1(qmul_y(spec_qinv(q), t.0 as int, t.1 as int)) <= qmul_x(
                        spec_qinv(q),
                        t.0 as int,
                        t.1 as int,
                    ) implies exists|k: int|
                    0 <= k < self.prev.items@.len() && (#[trigger] self.prev.items@[k]).quadrant
                        == q && self.prev.items@[k].visibility == INITIAL_VISIBILITY && span_lo(
                        self.prev.items@[k].min,
                        qmul_x(spec_qinv(q), t.0 as int, t.1 as int),
                    ) <= qmul_y(spec_qinv(q), t.0 as int, t.1 as int) && qmul_y(
                        spec_qinv(q),
                        t.0 as int,
                        t.1 as int,
                    ) <= span_hi(
                        self.prev.items@[k].max,
                        qmul_x(spec_qinv(q), t.0 as int, t.1 as int),
                    ) by {
                        match q {
                            Quadrant::PlusX => {
                                assert(r0 is Some);
                                assert(self.prev.items@[k0] == it0);
                            },
                            Quadrant::PlusY => {
                                assert(r1 is Some);
                                assert(self.prev.items@[k1] == it1);
                            },
                            Quadrant::MinusX => {
                                assert(r2 is Some);
                                assert(self.prev.items@[k2] == it2);
                            },
                            Quadrant::MinusY => {
                                assert(r3 is Some);
                                assert(self.prev.items@[k3] == it3);
                            },
                        }
                    }
            }
        }
    }

    /// Residual visibility reads are unchanged when only the work lists or
    /// the recorded points differ.
    proof fn lemma_vis_same_scratch(a: Vision, b: Vision)
        requires
            b.radius == a.radius,
            b.offset == a.offset,
            b.visibility == a.visibility,
        ensures
            forall|p: Point| #[trigger] b.spec_visibility_at(p) == a.spec_visibility_at(p),
    {
        assert forall|p: Point| #[trigger] b.spec_visibility_at(p) == a.spec_visibility_at(p) by {}
    }

    /// Record one lit cell: raise its stored value to at least `value`, and
    /// append the cell to the seen list when it was unseen. `point` is the
    /// cell's offset from the viewer, a nonzero vector within the radius
    /// disk; `pw` is the cell itself.
    #[verifier::loop_isolation(false)]
    #[verifier::rlimit(100)]
    fn record_cell(&mut self, eye: Point, point: Point, pw: Point, value: i32)
        requires
            old(self).wf(),
            eye_ok(eye, old(self).spec_radius()),
            old(self).eye_x() == eye.0,
            old(self).eye_y() == eye.1,
            0 <= value <= INITIAL_VISIBILITY,
            point.0 != 0 || point.1 != 0,
            abs1(point.0 as int) <= old(self).spec_radius(),
            abs1(point.1 as int) <= old(self).spec_radius(),
            (point.0 as int) * (point.0 as int) + (point.1 as int) * (point.1 as int) <= old(self).spec_radius() * old(self).spec_radius() + old(self).spec_radius(),
            pw.0 == point.0 + eye.0,
            pw.1 == point.1 + eye.1,
        ensures
            final(self).wf(),
            final(self).radius == old(self).radius,
            final(self).offset == old(self).offset,
            final(self).prev == old(self).prev,
            final(self).next == old(self).next,
            old(self).points_seen@.is_prefix_of(final(self).points_seen@),
            pw != eye,
            final(self).points_seen@ == (if old(self).spec_visibility_at(pw) < 0 {
                old(self).points_seen@.push(pw)
            } else {
                old(self).points_seen@
            }),
            forall|p: Point|
                #[trigger] final(self).spec_visibility_at(p) == (if p == pw {
                    vstd::math::max(old(self).spec_visibility_at(pw), value as int)
                } else {
                    old(self).spec_visibility_at(p)
                }),
    {
        let radius = self.radius;
        let pc = point.add(Point(radius, radius));
        let oldv = self.visibility.get(pc);
        let ghost s0 = *self;
        if oldv < 0 {
            self.points_seen.push(pw);
        }
        let newv = if oldv >= value {
            oldv
        } else {
            value
        };
        let ghost s1 = *self;
        self.visibility.set(pc, newv);
        proof {
            let m0 = s0.visibility;
            assert(m0.spec_contains(pc));
            crate::base::lemma_row_major_bounds(pc.0 as int, pc.1 as int, m0.size.0 as int,
                m0.size.1 as int);
            assert(oldv == s0.spec_visibility_at(pw));
            // How every read changes: only the written cell, which is world
            // point `pw`, moves, and it moves up to `newv`.
            assert forall|p: Point|
                #[trigger] self.spec_visibility_at(p) == (if p == pw {
                    newv as int
                } else {
                    s0.spec_visibility_at(p)
                }) by {
                let mx = p.0 + self.offset.0;
                let my = p.1 + self.offset.1;
                if 0 <= mx < self.visibility.size.0 && 0 <= my < self.visibility.size.1 {
                    let qpt = Point(mx as i32, my as i32);
                    if p == pw {
                        assert(qpt == pc);
                    } else {
                        assert(qpt != pc);
                    }
                } else {
                    assert(p != pw);
                }
            }
            // The viewer's own cell is never the one written: `point` is off
            // the origin.
            assert(pw != eye);
            // The recorded points stay consistent.
            if oldv < 0 {
                assert(s1.points_seen@ == s0.points_seen@.push(pw));
                assert(!s0.points_seen@.contains(pw));
                assert(old(self).points_seen@.is_prefix_of(self.points_seen@)) by {
                    assert(s1.points_seen@.subrange(0, s0.points_seen@.len() as int)
                        =~= s0.points_seen@);
                }
            }
            assert forall|i: int|
                0 <= i < self.points_seen@.len() implies self.spec_visibility_at(
                #[trigger] self.points_seen@[i],
            ) >= 0 by {
                if i < s0.points_seen@.len() {
                    assert(s0.spec_visibility_at(s0.points_seen@[i]) >= 0);
                } else {
                    assert(self.points_seen@[i] == pw);
                }
            }
            assert forall|p: Point|
                #[trigger] self.spec_visibility_at(p) >= 0 implies self.points_seen@.contains(
                p,
            ) by {
                if p == pw {
                    if oldv < 0 {
                        assert(self.points_seen@[s0.points_seen@.len() as int] == pw);
                    } else {
                        assert(s0.spec_visibility_at(pw) >= 0);
                        let j = choose|j: int|
                            0 <= j < s0.points_seen@.len() && s0.points_seen@[j] == pw;
                        assert(self.points_seen@[j] == pw);
                    }
                } else {
                    assert(s0.spec_visibility_at(p) >= 0);
                    let j = choose|j: int|
                        0 <= j < s0.points_seen@.len() && s0.points_seen@[j] == p;
                    assert(self.points_seen@[j] == p);
                }
            }
            assert forall|i: int, j: int|
                0 <= i < j < self.points_seen@.len() implies self.points_seen@[i]
                    != self.points_seen@[j] by {
                if j < s0.points_seen@.len() {
                } else {
                    assert(self.points_seen@[j] == pw);
                    assert(s0.points_seen@.contains(s0.points_seen@[i]) == true) by {
                        assert(s0.points_seen@[i] == s0.points_seen@[i]);
                    }
                }
            }
            // The new point lies in the radius disk around the eye.
            assert(self.in_disc(pw));
            assert forall|i: int|
                0 <= i < self.points_seen@.len() implies self.in_disc(
                #[trigger] self.points_seen@[i],
            ) by {
                if i < s0.points_seen@.len() {
                    assert(s0.in_disc(s0.points_seen@[i]));
                    assert(s0.points_seen@[i] == self.points_seen@[i]);
                } else {
                    assert(self.points_seen@[i] == pw);
                }
            }
            // Cell values stay at least -1.
            assert forall|i: int|
                0 <= i < self.visibility.data@.len() implies #[trigger] self.visibility.data@[i]
                    >= -1 by {
                if i != m0.spec_index_of(pc) {
                    assert(self.visibility.data@[i] == m0.data@[i]);
                }
            }
        }
    }

    /// Sweep one slope interval along the row at `depth`: classify each cell
    /// of its width span, record the visible ones, and emit the surviving
    /// sub-intervals onto the next row's work list.
    #[verifier::loop_isolation(false)]
    #[verifier::rlimit(100)]
    fn sweep_range<O: OpacityOracle>(
        &mut self,
        eye: Point,
        depth: i32,
        range: SlopeRange,
        oracle: &O,
        Ghost(mvis): Ghost<Map<Point, int>>,
    )
        requires
            forall|p: Point| #[trigger] light_at(mvis, p) == old(self).spec_visibility_at(p),
            old(self).wf(),
            eye_ok(eye, old(self).spec_radius()),
            old(self).eye_x() == eye.0,
            old(self).eye_y() == eye.1,
            1 <= depth <= old(self).spec_radius(),
            range_wf(range),
            forall|i: int|
                0 <= i < old(self).next.items@.len() ==> range_wf(
                    #[trigger] old(self).next.items@[i],
                ),
            forall|p: Point| #[trigger] oracle.spec_opacity(p) >= 0,
        ensures
            final(self).wf(),
            final(self).radius == old(self).radius,
            final(self).offset == old(self).offset,
            final(self).prev == old(self).prev,
            final(self).next.depth == old(self).next.depth,
            forall|i: int|
                0 <= i < final(self).next.items@.len() ==> range_wf(
                    #[trigger] final(self).next.items@[i],
                ),
            old(self).points_seen@.is_prefix_of(final(self).points_seen@),
            forall|p: Point|
                #[trigger] final(self).spec_visibility_at(p) >= old(self).spec_visibility_at(p),
            final(self).spec_visibility_at(eye) == old(self).spec_visibility_at(eye),
            forall|p: Point|
                p != eye ==> #[trigger] final(self).spec_visibility_at(p) <= vstd::math::max(
                    old(self).spec_visibility_at(p),
                    INITIAL_VISIBILITY as int,
                ),
            ({
                let r = scan_range(
                    *oracle,
                    eye,
                    old(self).spec_radius(),
                    range,
                    depth as int,
                    mvis,
                    old(self).points_seen@,
                    old(self).next.items@,
                );
                &&& forall|p: Point| #[trigger] light_at(r.0, p) == final(self).spec_visibility_at(
                    p,
                )
                &&& r.1 == final(self).points_seen@
                &&& r.2 == final(self).next.items@
            }),
    {
        let radius = self.radius;
        proof {
            assert(radius * radius + radius <= 0x7fff_ffff) by (nonlinear_arith)
                requires
                    0 <= radius <= 23169,
            ;
        }
        let r2 = radius * radius + radius;
        let sd = depth as i64;
        proof {
            assert(-0x1_0000_0000_0000 <= 2 * (range.min.num as int) * (depth as int)
                <= 0x1_0000_0000_0000) by (nonlinear_arith)
                requires
                    -0x8000_0000 <= range.min.num as int <= 0x8000_0000,
                    1 <= depth as int <= 23169,
            ;
            assert(-0x1_0000_0000_0000 <= 2 * (range.max.num as int) * (depth as int)
                <= 0x1_0000_0000_0000) by (nonlinear_arith)
                requires
                    -0x8000_0000 <= range.max.num as int <= 0x8000_0000,
                    1 <= depth as int <= 23169,
            ;
            lemma_span_floor(range.min.num as int, range.min.den as int, depth as int);
            lemma_span_ceil(range.max.num as int, range.max.den as int, depth as int);
        }
        let start64 = div_floor_i64(
            2 * (range.min.num as i64) * sd + (range.min.den as i64),
            2 * (range.min.den as i64),
        );
        let finish64 = div_ceil_i64(
            2 * (range.max.num as i64) * sd - (range.max.den as i64),
            2 * (range.max.den as i64),
        );
        let start = start64 as i32;
        let finish = finish64 as i32;
        proof {
            assert(start as int == span_lo(range.min, depth as int));
            assert(finish as int == span_hi(range.max, depth as int));
        }
        let center_pt = Point(radius, radius);
        let mut cur_min = range.min;
        let mut prev_v: i32 = -1;
        let mut w = start;
        let ghost mut gv = mvis;
        while w <= finish
            invariant
                start <= w,
                self.radius == old(self).radius,
                self.offset == old(self).offset,
                self.prev == old(self).prev,
                self.next.depth == old(self).next.depth,
                self.wf(),
                forall|i: int|
                    0 <= i < self.next.items@.len() ==> range_wf(#[trigger] self.next.items@[i]),
                old(self).points_seen@.is_prefix_of(self.points_seen@),
                forall|p: Point|
                    #[trigger] self.spec_visibility_at(p) >= old(self).spec_visibility_at(p),
                self.spec_visibility_at(eye) == old(self).spec_visibility_at(eye),
                forall|p: Point|
                    p != eye ==> #[trigger] self.spec_visibility_at(p) <= vstd::math::max(
                        old(self).spec_visibility_at(p),
                        INITIAL_VISIBILITY as int,
                    ),
                cur_min.den > 0,
                -cur_min.den <= cur_min.num,
                cur_min.num <= cur_min.den,
                -1 <= prev_v <= range.visibility,
                prev_v >= 0 ==> w >= start + 1,
                w <= finish + 1 || w == start,
                cur_min == range.min || (cur_min.den == 2 * depth && cur_min.num <= 2 * w - 3),
                forall|p: Point| #[trigger] light_at(gv, p) == self.spec_visibility_at(p),
                scan_widths(*oracle, eye, old(self).spec_radius(), range, depth as int, w as int,
                    finish as int, cur_min, prev_v as int, gv, self.points_seen@,
                    self.next.items@) == scan_widths(*oracle, eye, old(self).spec_radius(), range,
                    depth as int, start as int, finish as int, range.min, -1, mvis,
                    old(self).points_seen@, old(self).next.items@),
            decreases vstd::math::max(finish + 1 - w, 0),
        {
            let ghost g_top = (gv, self.points_seen@, self.next.items@, cur_min, prev_v);
            proof {
                assert(0 <= w * w <= 0x2000_0001 && 0 <= depth * depth <= 0x2000_0001) by (nonlinear_arith)
                    requires
                        -23169 <= w as int <= 23169,
                        1 <= depth as int <= 23169,
                ;
            }
            let nearby = depth * depth + w * w <= r2;
            let point = qmul(range.quadrant, Point(depth, w));
            proof {
                if nearby {
                    assert(w * w >= 0 && depth * depth >= 0) by (nonlinear_arith);
                    lemma_sq_within(depth as int, radius as int);
                    lemma_sq_within(w as int, radius as int);
                }
            }
            let next_v: i32;
            if !nearby {
                next_v = -1;
            } else {
                let pw0 = point.add(eye);
                let o = oracle.opacity(pw0);
                if o == 0 {
                    next_v = range.visibility;
                } else if o >= range.visibility {
                    next_v = 0;
                } else {
                    // Partial attenuation: the cell costs
                    // floor(o * (1 + |w| / (2 * depth))) of the remaining
                    // budget; diagonal passage costs more than axial.
                    let aw: i64 = if w < 0 {
                        -(w as i64)
                    } else {
                        w as i64
                    };
                    proof {
                        assert(0 <= (o as int) * aw <= 0x7fff_ffff) by (nonlinear_arith)
                            requires
                                1 <= o as int <= 99,
                                0 <= aw <= 23169,
                        ;
                        lemma_floor_div_pos((o as int) * aw, 2 * (depth as int));
                        assert(0 <= floor_div((o as int) * aw, 2 * (depth as int)) <= (o as int)
                            * aw) by (nonlinear_arith)
                            requires
                                2 * (depth as int) >= 2,
                                0 <= (o as int) * aw,
                                2 * (depth as int) * floor_div((o as int) * aw, 2 * (depth as int))
                                    <= (o as int) * aw < 2 * (depth as int) * floor_div(
                                    (o as int) * aw,
                                    2 * (depth as int),
                                ) + 2 * (depth as int),
                        ;
                    }
                    let loss: i64 = (o as i64) + ((o as i64) * aw) / (2 * sd);
                    let nv: i64 = (range.visibility as i64) - loss;
                    next_v = if nv >= 0 {
                        nv as i32
                    } else {
                        0
                    };
                }
                proof {
                    assert(pw0 == frame_cell(range.quadrant, depth as int, w as int, eye));
                    assert(next_v == cell_light(
                        range.visibility as int,
                        oracle.spec_opacity(pw0) as int,
                        depth as int,
                        w as int,
                    ));
                }
            }
            if next_v >= 0 {
                proof {
                    assert(nearby);
                    assert(0 <= next_v <= range.visibility);
                    assert(point.0 != 0 || point.1 != 0);
                    assert((point.0 as int) * (point.0 as int) + (point.1 as int) * (point.1 as int)
                        == (depth as int) * (depth as int) + (w as int) * (w as int))
                        by (nonlinear_arith)
                        requires
                            point.0 as int == qmul_x(range.quadrant, depth as int, w as int),
                            point.1 as int == qmul_y(range.quadrant, depth as int, w as int),
                            (qmul_x(range.quadrant, depth as int, w as int) == depth as int
                                && qmul_y(range.quadrant, depth as int, w as int) == w as int) || (
                            qmul_x(range.quadrant, depth as int, w as int) == -(w as int)
                                && qmul_y(range.quadrant, depth as int, w as int) == depth as int)
                                || (qmul_x(range.quadrant, depth as int, w as int) == -(depth as int)
                                && qmul_y(range.quadrant, depth as int, w as int) == -(w as int)) || (
                            qmul_x(range.quadrant, depth as int, w as int) == w as int && qmul_y(
                                range.quadrant,
                                depth as int,
                                w as int,
                            ) == -(depth as int)),
                    ;
                }
                let pw = point.add(eye);
                let ghost s0 = *self;
                self.record_cell(eye, point, pw, next_v);
                proof {
                    let ghost oldgv = gv;
                    gv = oldgv.insert(pw, vstd::math::max(light_at(oldgv, pw), next_v as int));
                    assert forall|p: Point| #[trigger] light_at(gv, p) == self.spec_visibility_at(
                        p,
                    ) by {
                        if p != pw {
                            assert(light_at(gv, p) == light_at(oldgv, p));
                        }
                    }
                    let di = depth as int;
                    let wi = w as int;
                    assert(pw == frame_cell(range.quadrant, di, wi, eye));
                    assert(next_v == cell_light(
                        range.visibility as int,
                        oracle.spec_opacity(pw) as int,
                        di,
                        wi,
                    ));
                }
            }
            if prev_v != next_v && prev_v >= 0 {
                let slope = Slope { num: 2 * w - 1, den: 2 * depth };
                proof {
                    // The accumulated low end lies strictly below the split
                    // slope, so the emitted interval is ordered.
                    if cur_min == range.min {
                        let st = start as int;
                        let di = depth as int;
                        lemma_floor_div_pos(2 * (range.min.num as int) * di + range.min.den,
                            2 * (range.min.den as int));
                        assert(2 * (range.min.den as int) * st <= 2 * (range.min.num as int) * di
                            + range.min.den < 2 * (range.min.den as int) * st + 2 * (
                        range.min.den as int));
                        assert(cur_min.num * slope.den < slope.num * cur_min.den)
                            by (nonlinear_arith)
                            requires
                                cur_min == range.min,
                                slope.num == 2 * w - 1,
                                slope.den == 2 * depth,
                                depth >= 1,
                                range.min.den > 0,
                                w >= st + 1,
                                2 * (range.min.num as int) * di + range.min.den < 2 * (
                                range.min.den as int) * st + 2 * (range.min.den as int),
                                di == depth as int,
                        ;
                    } else {
                        assert(cur_min.num * slope.den < slope.num * cur_min.den)
                            by (nonlinear_arith)
                            requires
                                cur_min.den == 2 * depth,
                                cur_min.num <= 2 * w - 3,
                                slope.num == 2 * w - 1,
                                slope.den == 2 * depth,
                                depth >= 1,
                        ;
                    }
                }
                if prev_v > 0 {
                    let emit = SlopeRange {
                        min: cur_min,
                        max: slope,
                        quadrant: range.quadrant,
                        visibility: prev_v,
                    };
                    let ghost s2 = *self;
                    push_range(&mut self.next.items, emit);
                    proof {
                        Self::lemma_wf_same_scratch(s2, *self);
                        Self::lemma_vis_same_scratch(s2, *self);
                    }
                }
                cur_min = slope;
            }
            proof {
                let di = depth as int;
                let rad = old(self).spec_radius();
                assert(scan_cell(*oracle, eye, rad, range.quadrant, di, w as int,
                    range.visibility as int) == next_v as int);
                assert(scan_widths(*oracle, eye, rad, range, di, w as int, finish as int, g_top.3,
                    g_top.4 as int, g_top.0, g_top.1, g_top.2) == scan_widths(*oracle, eye, rad,
                    range, di, w as int + 1, finish as int, cur_min, next_v as int, gv,
                    self.points_seen@, self.next.items@));
            }
            prev_v = next_v;
            w = w + 1;
        }
        proof {
            assert(scan_widths(*oracle, eye, old(self).spec_radius(), range, depth as int,
                w as int, finish as int, cur_min, prev_v as int, gv, self.points_seen@,
                self.next.items@) == (
            gv,
            self.points_seen@,
            self.next.items@,
            cur_min,
            prev_v as int,
            ));
        }
        if prev_v > 0 {
            proof {
                assert(w == finish + 1);
                // The accumulated low end lies strictly below the interval's
                // high end, so the surviving interval is ordered.
                if cur_min != range.min {
                    let fi = finish as int;
                    let di = depth as int;
                    lemma_ceil_div_pos(2 * (range.max.num as int) * di - range.max.den,
                        2 * (range.max.den as int));
                    assert(2 * (range.max.den as int) * fi - 2 * (range.max.den as int) < 2 * (
                    range.max.num as int) * di - range.max.den <= 2 * (range.max.den as int) * fi);
                    assert(cur_min.num * range.max.den < range.max.num * cur_min.den)
                        by (nonlinear_arith)
                        requires
                            cur_min.den == 2 * depth,
                            cur_min.num <= 2 * fi - 1,
                            range.max.den > 0,
                            depth >= 1,
                            di == depth as int,
                            2 * (range.max.den as int) * fi - 2 * (range.max.den as int) < 2 * (
                            range.max.num as int) * di - range.max.den,
                    ;
                }
            }
            let emit = SlopeRange {
                min: cur_min,
                max: range.max,
                quadrant: range.quadrant,
                visibility: prev_v,
            };
            let ghost s3 = *self;
            push_range(&mut self.next.items, emit);
            proof {
                Self::lemma_wf_same_scratch(s3, *self);
                Self::lemma_vis_same_scratch(s3, *self);
            }
        }
        proof {
            let di = depth as int;
            let rad = old(self).spec_radius();
            let r = scan_range(*oracle, eye, rad, range, di, mvis, old(self).points_seen@,
                old(self).next.items@);
            assert(start as int == span_lo(range.min, di));
            assert(finish as int == span_hi(range.max, di));
            assert(r.0 == gv && r.1 == self.points_seen@ && r.2 == self.next.items@);
        }
    }

    /// Run the sweep outward one depth row at a time, until the row after
    /// `limit` or until no interval survives.
    #[verifier::loop_isolation(false)]
    #[verifier::rlimit(100)]
    fn execute<O: OpacityOracle>(
        &mut self,
        eye: Point,
        limit: i32,
        oracle: &O,
        Ghost(mvis0): Ghost<Map<Point, int>>,
    )
        requires
            forall|p: Point| #[trigger] light_at(mvis0, p) == old(self).spec_visibility_at(p),
            old(self).wf(),
            eye_ok(eye, old(self).spec_radius()),
            old(self).eye_x() == eye.0,
            old(self).eye_y() == eye.1,
            0 <= limit <= old(self).spec_radius(),
            old(self).prev.depth == 1,
            old(self).next.depth == 2,
            forall|i: int|
                0 <= i < old(self).prev.items@.len() ==> range_wf(
                    #[trigger] old(self).prev.items@[i],
                ),
            old(self).next.items@.len() == 0,
            forall|p: Point| #[trigger] oracle.spec_opacity(p) >= 0,
        ensures
            final(self).wf(),
            final(self).radius == old(self).radius,
            final(self).offset == old(self).offset,
            old(self).points_seen@.is_prefix_of(final(self).points_seen@),
            forall|p: Point|
                #[trigger] final(self).spec_visibility_at(p) >= old(self).spec_visibility_at(p),
            final(self).spec_visibility_at(eye) == old(self).spec_visibility_at(eye),
            forall|p: Point|
                p != eye ==> #[trigger] final(self).spec_visibility_at(p) <= vstd::math::max(
                    old(self).spec_visibility_at(p),
                    INITIAL_VISIBILITY as int,
                ),
            ({
                let r = sweep_depths(
                    *oracle,
                    eye,
                    old(self).spec_radius(),
                    limit as int,
                    1,
                    old(self).prev.items@,
                    mvis0,
                    old(self).points_seen@,
                );
                &&& forall|p: Point| #[trigger] light_at(r.0, p) == final(self).spec_visibility_at(
                    p,
                )
                &&& r.1 == final(self).points_seen@
            }),
    {
        let ghost mut gv = mvis0;
        while self.prev.depth <= limit && self.prev.items.len() > 0
            invariant
                self.radius == old(self).radius,
                self.offset == old(self).offset,
                self.wf(),
                1 <= self.prev.depth,
                self.next.depth == self.prev.depth + 1,
                forall|i: int|
                    0 <= i < self.prev.items@.len() ==> range_wf(#[trigger] self.prev.items@[i]),
                self.next.items@.len() == 0,
                old(self).points_seen@.is_prefix_of(self.points_seen@),
                forall|p: Point|
                    #[trigger] self.spec_visibility_at(p) >= old(self).spec_visibility_at(p),
                self.spec_visibility_at(eye) == old(self).spec_visibility_at(eye),
                forall|p: Point|
                    p != eye ==> #[trigger] self.spec_visibility_at(p) <= vstd::math::max(
                        old(self).spec_visibility_at(p),
                        INITIAL_VISIBILITY as int,
                    ),
                self.prev.depth >= 1,
                self.prev.depth == 1 ==> self.prev == old(self).prev,
                forall|p: Point| #[trigger] light_at(gv, p) == self.spec_visibility_at(p),
                sweep_depths(*oracle, eye, old(self).spec_radius(), limit as int,
                    self.prev.depth as int, self.prev.items@, gv, self.points_seen@)
                    == sweep_depths(*oracle, eye, old(self).spec_radius(), limit as int, 1,
                    old(self).prev.items@, mvis0, old(self).points_seen@),
            decreases vstd::math::max(limit + 1 - self.prev.depth, 0),
        {
            let depth = self.prev.depth;
            let n = self.prev.items.len();
            let ghost row_items = self.prev.items@;
            let ghost row_vis = gv;
            let ghost row_seen = self.points_seen@;
            proof {
                assert(self.next.items@ =~= Seq::<SlopeRange>::empty());
            }
            let mut ri: usize = 0;
            while ri < n
                invariant
                    ri <= n,
                    self.radius == old(self).radius,
                    self.offset == old(self).offset,
                    self.wf(),
                    depth == self.prev.depth,
                    1 <= depth <= limit,
                    n == self.prev.items@.len(),
                    self.next.depth == depth + 1,
                    forall|i: int|
                        0 <= i < self.prev.items@.len() ==> range_wf(
                            #[trigger] self.prev.items@[i],
                        ),
                    forall|i: int|
                        0 <= i < self.next.items@.len() ==> range_wf(
                            #[trigger] self.next.items@[i],
                        ),
                    old(self).points_seen@.is_prefix_of(self.points_seen@),
                    forall|p: Point|
                        #[trigger] self.spec_visibility_at(p) >= old(self).spec_visibility_at(p),
                    self.spec_visibility_at(eye) == old(self).spec_visibility_at(eye),
                    forall|p: Point|
                        p != eye ==> #[trigger] self.spec_visibility_at(p) <= vstd::math::max(
                            old(self).spec_visibility_at(p),
                            INITIAL_VISIBILITY as int,
                        ),
                    depth == 1 ==> self.prev == old(self).prev,
                    self.prev.items@ == row_items,
                    forall|p: Point| #[trigger] light_at(gv, p) == self.spec_visibility_at(p),
                    scan_items(*oracle, eye, old(self).spec_radius(), row_items, ri as int,
                        depth as int, gv, self.points_seen@, self.next.items@) == scan_items(
                        *oracle,
                        eye,
                        old(self).spec_radius(),
                        row_items,
                        0,
                        depth as int,
                        row_vis,
                        row_seen,
                        Seq::empty(),
                    ),
                decreases n - ri,
            {
                let range = self.prev.items[ri];
                let ghost s0 = *self;
                let ghost gpre = gv;
                self.sweep_range(eye, depth, range, oracle, Ghost(gv));
                proof {
                    assert(old(self).points_seen@.is_prefix_of(self.points_seen@)) by {
                        assert(old(self).points_seen@ =~= self.points_seen@.subrange(
                            0,
                            old(self).points_seen@.len() as int,
                        ));
                    }
                    let rad = old(self).spec_radius();
                    let r = scan_range(*oracle, eye, rad, range, depth as int, gpre,
                        s0.points_seen@, s0.next.items@);
                    gv = r.0;
                    assert(scan_items(*oracle, eye, rad, row_items, ri as int, depth as int, gpre,
                        s0.points_seen@, s0.next.items@) == scan_items(*oracle, eye, rad,
                        row_items, ri as int + 1, depth as int, gv, self.points_seen@,
                        self.next.items@));
                }
                ri = ri + 1;
            }
            let ghost s5 = *self;
            core::mem::swap(&mut self.prev, &mut self.next);
            self.next.items.clear();
            self.next.depth = self.next.depth + 2;
            proof {
                Self::lemma_wf_same_scratch(s5, *self);
                Self::lemma_vis_same_scratch(s5, *self);
                let rad = old(self).spec_radius();
                assert(scan_items(*oracle, eye, rad, row_items, n as int, depth as int, gv,
                    s5.points_seen@, s5.next.items@) == (gv, s5.points_seen@, s5.next.items@));
                assert(sweep_depths(*oracle, eye, rad, limit as int, depth as int, row_items,
                    row_vis, row_seen) == sweep_depths(*oracle, eye, rad, limit as int,
                    depth as int + 1, s5.next.items@, gv, s5.points_seen@));
            }
        }
        proof {
            assert(sweep_depths(*oracle, eye, old(self).spec_radius(), limit as int,
                self.prev.depth as int, self.prev.items@, gv, self.points_seen@) == (
            gv,
            self.points_seen@,
            ));
        }
    }

    /// The points visible after the last sweep, the viewer's cell first.
    pub fn get_points_seen(&self) -> (r: &[Point])
        ensures
            r@ == self.seen(),
    {
        self.points_seen.as_slice()
    }

    /// Residual visibility at world point `p`; -1 when unseen or outside the
    /// scratch.
    pub fn get_visibility_at(&self, p: Point) -> (r: i32)
        requires
            self.wf(),
        ensures
            r == self.spec_visibility_at(p),
    {
        let mx = p.0 as i64 + self.offset.0 as i64;
        let my = p.1 as i64 + self.offset.1 as i64;
        if 0 <= mx && mx < self.visibility.size.0 as i64 && 0 <= my && my
            < self.visibility.size.1 as i64 {
            self.visibility.get(Point(mx as i32, my as i32))
        } else {
            -1
        }
    }
}

impl Vision {
    /// A point reads as visible exactly when it was recorded: holds in every
    /// well-formed state, so after `new`, `clear`, `compute` and `can_see`.
    pub proof fn lemma_visible_iff_seen(v: Vision, p: Point)
        requires
            v.wf(),
        ensures
            v.spec_visibility_at(p) >= 0 <==> v.seen().contains(p),
    {
        if v.seen().contains(p) {
            let i = choose|i: int| 0 <= i < v.seen().len() && v.seen()[i] == p;
            assert(v.spec_visibility_at(v.points_seen@[i]) >= 0);
        }
    }

    /// Every recorded point lies within the Chebyshev box of the radius and
    /// within the rounded Euclidean disk, in every well-formed state.
    pub proof fn lemma_seen_within_radius(v: Vision, i: int)
        requires
            v.wf(),
            0 <= i < v.seen().len(),
        ensures
            cheb_dist(v.seen()[i], Point(v.eye_x() as i32, v.eye_y() as i32)) <= v.spec_radius(),
            dist_sq(v.seen()[i], Point(v.eye_x() as i32, v.eye_y() as i32)) <= v.spec_radius()
                * v.spec_radius() + v.spec_radius(),
    {
        assert(v.in_disc(v.points_seen@[i]));
    }

    /// The recorded points enumerate the visible cells without repetition,
    /// in every well-formed state.
    pub proof fn lemma_seen_distinct(v: Vision, i: int, j: int)
        requires
            v.wf(),
            0 <= i < j < v.seen().len(),
        ensures
            v.seen()[i] != v.seen()[j],
    {
    }

    /// Residual visibility is never below the unseen sentinel -1, in every
    /// well-formed state.
    pub proof fn lemma_visibility_at_least_unseen(v: Vision, p: Point)
        requires
            v.wf(),
        ensures
            v.spec_visibility_at(p) >= -1,
    {
        let mx = p.0 + v.offset.0;
        let my = p.1 + v.offset.1;
        if 0 <= mx < v.visibility.size.0 && 0 <= my < v.visibility.size.1 {
            crate::base::lemma_row_major_bounds(mx, my, v.visibility.size.0 as int,
                v.visibility.size.1 as int);
        }
    }

    /// Compute the full field of view for `args`: reset the scratch, seed the
    /// four quadrants (clipped to the cone when `args.dir` is nonzero), and
    /// sweep out to the radius.
    #[verifier::rlimit(100)]
    pub fn compute<O: OpacityOracle>(&mut self, args: &VisionArgs<O>)
        requires
            old(self).wf(),
            args.initial_visibility >= 0,
            eye_ok(args.eye, old(self).spec_radius()),
            dir_ok(args.dir),
            forall|p: Point| #[trigger] args.opacity_lookup.spec_opacity(p) >= 0,
        ensures
            final(self).wf(),
            final(self).spec_radius() == old(self).spec_radius(),
            final(self).eye_x() == args.eye.0,
            final(self).eye_y() == args.eye.1,
            final(self).seen().len() >= 1,
            final(self).seen()[0] == args.eye,
            final(self).spec_visibility_at(args.eye) == args.initial_visibility,
            forall|p: Point|
                #[trigger] final(self).spec_visibility_at(p) >= 0 <==> final(self).seen().contains(
                    p,
                ),
            forall|p: Point| #[trigger] final(self).spec_visibility_at(p) >= -1,
            forall|p: Point|
                p != args.eye ==> #[trigger] final(self).spec_visibility_at(p)
                    <= INITIAL_VISIBILITY,
            forall|i: int|
                0 <= i < final(self).seen().len() ==> cheb_dist(
                    #[trigger] final(self).seen()[i],
                    args.eye,
                ) <= final(self).spec_radius(),
            forall|i: int|
                0 <= i < final(self).seen().len() ==> dist_sq(
                    #[trigger] final(self).seen()[i],
                    args.eye,
                ) <= final(self).spec_radius() * final(self).spec_radius()
                    + final(self).spec_radius(),
            ({
                let m = fov_model(
                    args.opacity_lookup,
                    args.eye,
                    args.dir,
                    old(self).spec_radius(),
                    args.initial_visibility as int,
                    None,
                    old(self).spec_radius(),
                );
                &&& forall|p: Point| #[trigger] final(self).spec_visibility_at(p) == light_at(
                    m.0,
                    p,
                )
                &&& final(self).seen() == m.1
            }),
    {
        self.clear(args.eye, args.initial_visibility);
        let ghost s0 = *self;
        self.seed_ranges(args.dir, None);
        let ghost s1 = *self;
        let radius = self.radius;
        let ghost m0 = Map::<Point, int>::empty().insert(args.eye, args.initial_visibility as int);
        proof {
            Self::lemma_vis_same_scratch(s0, *self);
            assert forall|p: Point| #[trigger] light_at(m0, p) == self.spec_visibility_at(p) by {
                if p != args.eye {
                    assert(!m0.dom().contains(p));
                    assert(s0.spec_visibility_at(p) == -1);
                }
            }
        }
        self.execute(args.eye, radius, &args.opacity_lookup, Ghost(m0));
        proof {
            assert(s1.prev.items@ == seeds_model(args.dir, None));
            assert(s1.points_seen@ =~= seq![args.eye]);
            let m = fov_model(
                args.opacity_lookup,
                args.eye,
                args.dir,
                old(self).spec_radius(),
                args.initial_visibility as int,
                None,
                old(self).spec_radius(),
            );
            assert(m == sweep_depths(
                args.opacity_lookup,
                args.eye,
                old(self).spec_radius(),
                old(self).spec_radius(),
                1,
                seeds_model(args.dir, None),
                m0,
                seq![args.eye],
            ));
            assert(self.points_seen@[0] == args.eye) by {
                assert(s0.points_seen@.is_prefix_of(self.points_seen@));
                assert(s0.points_seen@[0] == args.eye);
            }
            assert forall|p: Point|
                #[trigger] self.spec_visibility_at(p) >= 0 <==> self.seen().contains(p) by {
                Self::lemma_visible_iff_seen(*self, p);
            }
            assert forall|p: Point| #[trigger] self.spec_visibility_at(p) >= -1 by {
                Self::lemma_visibility_at_least_unseen(*self, p);
            }
            assert forall|p: Point|
                p != args.eye implies #[trigger] self.spec_visibility_at(p)
                    <= INITIAL_VISIBILITY by {
                assert(s0.spec_visibility_at(p) == -1);
            }
            assert forall|i: int|
                0 <= i < self.seen().len() implies cheb_dist(#[trigger] self.seen()[i], args.eye)
                    <= self.spec_radius() && dist_sq(self.seen()[i], args.eye)
                    <= self.spec_radius() * self.spec_radius() + self.spec_radius() by {
                assert(self.in_disc(self.points_seen@[i]));
            }
        }
    }

    /// Whether `target` is visible from `args.eye`: true at once for the
    /// viewer's own cell, false beyond the radius disk, and otherwise decided
    /// by a sweep bounded by the target's Chebyshev distance and filtered to
    /// the slope band containing the target.
    #[verifier::rlimit(100)]
    pub fn can_see<O: OpacityOracle>(&mut self, args: &VisionArgs<O>, target: Point) -> (r: bool)
        requires
            old(self).wf(),
            args.initial_visibility >= 0,
            eye_ok(args.eye, old(self).spec_radius()),
            dir_ok(args.dir),
            forall|p: Point| #[trigger] args.opacity_lookup.spec_opacity(p) >= 0,
        ensures
            final(self).wf(),
            final(self).spec_radius() == old(self).spec_radius(),
            target == args.eye ==> r && *final(self) == *old(self),
            target != args.eye && dist_sq(target, args.eye) > old(self).spec_radius()
                * old(self).spec_radius() + old(self).spec_radius() ==> !r && *final(self)
                == *old(self),
            target != args.eye && dist_sq(target, args.eye) <= old(self).spec_radius()
                * old(self).spec_radius() + old(self).spec_radius() ==> {
                &&& r == (final(self).spec_visibility_at(target) >= 0)
                &&& r == final(self).seen().contains(target)
                &&& final(self).seen().len() >= 1
                &&& final(self).seen()[0] == args.eye
                &&& final(self).spec_visibility_at(args.eye) == args.initial_visibility
                &&& forall|p: Point|
                    #[trigger] final(self).spec_visibility_at(p) >= 0
                        <==> final(self).seen().contains(p)
                &&& forall|i: int|
                    0 <= i < final(self).seen().len() ==> cheb_dist(
                        #[trigger] final(self).seen()[i],
                        args.eye,
                    ) <= final(self).spec_radius()
                &&& forall|i: int|
                    0 <= i < final(self).seen().len() ==> dist_sq(
                        #[trigger] final(self).seen()[i],
                        args.eye,
                    ) <= final(self).spec_radius() * final(self).spec_radius()
                        + final(self).spec_radius()
                &&& ({
                    let m = fov_model(
                        args.opacity_lookup,
                        args.eye,
                        args.dir,
                        old(self).spec_radius(),
                        args.initial_visibility as int,
                        Some(
                            Point(
                                (target.0 - args.eye.0) as i32,
                                (target.1 - args.eye.1) as i32,
                            ),
                        ),
                        cheb_dist(target, args.eye),
                    );
                    &&& forall|p: Point| #[trigger] final(self).spec_visibility_at(p) == light_at(
                        m.0,
                        p,
                    )
                    &&& final(self).seen() == m.1
                    &&& r == (light_at(m.0, target) >= 0)
                })
            },
    {
        if args.eye == target {
            return true;
        }
        let radius = self.radius;
        // Reject targets beyond the rounded disk without sweeping; checking
        // the Chebyshev box first keeps the squares small.
        let dx = target.0 as i64 - args.eye.0 as i64;
        let dy = target.1 as i64 - args.eye.1 as i64;
        proof {
            assert(radius * radius + radius <= 0x7fff_ffff) by (nonlinear_arith)
                requires
                    0 <= radius <= 23169,
            ;
        }
        let rr = (radius as i64) * (radius as i64) + (radius as i64);
        if dx > radius as i64 || dx < -(radius as i64) || dy > radius as i64 || dy < -(radius
            as i64) {
            proof {
                assert(dx * dx + dy * dy > (radius as int) * (radius as int) + radius)
                    by (nonlinear_arith)
                    requires
                        radius >= 0,
                        dx > radius || dx < -radius || dy > radius || dy < -radius,
                ;
            }
            return false;
        }
        proof {
            assert(0 <= dx * dx <= 0x2000_0001 && 0 <= dy * dy <= 0x2000_0001) by (nonlinear_arith)
                requires
                    -23169 <= dx <= 23169,
                    -23169 <= dy <= 23169,
            ;
        }
        if dx * dx + dy * dy > rr {
            return false;
        }
        let diff = target.sub(args.eye);
        let limit = diff.len_l1();
        self.clear(args.eye, args.initial_visibility);
        let ghost s0 = *self;
        self.seed_ranges(args.dir, Some(diff));
        let ghost s1 = *self;
        let ghost m0 = Map::<Point, int>::empty().insert(args.eye, args.initial_visibility as int);
        proof {
            Self::lemma_vis_same_scratch(s0, *self);
            assert forall|p: Point| #[trigger] light_at(m0, p) == self.spec_visibility_at(p) by {
                if p != args.eye {
                    assert(!m0.dom().contains(p));
                    assert(s0.spec_visibility_at(p) == -1);
                }
            }
        }
        self.execute(args.eye, limit, &args.opacity_lookup, Ghost(m0));
        let vis = self.get_visibility_at(target);
        proof {
            assert(diff == (Point((target.0 - args.eye.0) as i32, (target.1 - args.eye.1) as i32)));
            assert(limit as int == cheb_dist(target, args.eye));
            assert(s1.prev.items@ == seeds_model(args.dir, Some(diff)));
            assert(s1.points_seen@ =~= seq![args.eye]);
            let m = fov_model(
                args.opacity_lookup,
                args.eye,
                args.dir,
                old(self).spec_radius(),
                args.initial_visibility as int,
                Some(diff),
                cheb_dist(target, args.eye),
            );
            assert(m == sweep_depths(
                args.opacity_lookup,
                args.eye,
                old(self).spec_radius(),
                limit as int,
                1,
                seeds_model(args.dir, Some(diff)),
                m0,
                seq![args.eye],
            ));
            assert(vis as int == light_at(m.0, target));
            assert(self.points_seen@[0] == args.eye) by {
                assert(s0.points_seen@.is_prefix_of(self.points_seen@));
                assert(s0.points_seen@[0] == args.eye);
            }
            assert forall|p: Point|
                #[trigger] self.spec_visibility_at(p) >= 0 <==> self.seen().contains(p) by {
                Self::lemma_visible_iff_seen(*self, p);
            }
            assert forall|i: int|
                0 <= i < self.seen().len() implies cheb_dist(#[trigger] self.seen()[i], args.eye)
                    <= self.spec_radius() && dist_sq(self.seen()[i], args.eye)
                    <= self.spec_radius() * self.spec_radius() + self.spec_radius() by {
                assert(self.in_disc(self.points_seen@[i]));
            }
        }
        vis >= 0
    }
}

} // verus!
