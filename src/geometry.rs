use vstd::prelude::*;
use vstd::arithmetic::div_mod::{lemma_fundamental_div_mod, lemma_fundamental_div_mod_converse};

verus! {

/// Length of a unit heading: a heading (x, y) stands for (x / UNIT, y / UNIT).
pub const UNIT: i64 = 16777216;

/// Bound on the absolute value of every world coordinate.
pub const WORLD_LIMIT: i64 = 1048576;

/// Bound on the absolute value of a vector component handed to `normalize`.
pub const NORM_LIMIT: i64 = 536870912;

/// A 2D vector of integer world units (positions) or of fixed-point units
/// (headings, where `UNIT` is one).
#[derive(Debug, Clone, Copy, PartialEq, Eq, Structural)]
pub struct Vec2i {
    pub x: i64,
    pub y: i64,
}

pub open spec fn in_world(p: Vec2i) -> bool {
    -WORLD_LIMIT <= p.x <= WORLD_LIMIT && -WORLD_LIMIT <= p.y <= WORLD_LIMIT
}

pub open spec fn abs(a: int) -> int {
    if a < 0 { -a } else { a }
}

/// Squared euclidean distance between two points.
pub open spec fn dist_sq(a: Vec2i, b: Vec2i) -> int {
    (a.x - b.x) * (a.x - b.x) + (a.y - b.y) * (a.y - b.y)
}

/// Division that rounds toward zero, as integer division does on machine integers.
pub open spec fn trunc_div(n: int, d: int) -> int {
    if n >= 0 { n / d } else { -((-n) / d) }
}

/// Division by a positive divisor that rounds to the nearest integer, halves
/// away from zero.
pub open spec fn round_div(n: int, d: int) -> int {
    if n >= 0 { (2 * n + d) / (2 * d) } else { -((2 * (-n) + d) / (2 * d)) }
}

/// Whether `r` is the integer square root of `n`.
pub open spec fn is_isqrt(n: int, r: int) -> bool {
    0 <= r && r * r <= n && n < (r + 1) * (r + 1)
}

/// The vector along `(x, y)` scaled to length `UNIT`, where `len` is the integer
/// square root of `(x * x + y * y) * UNIT * UNIT` (the length in units of
/// `1 / UNIT`): each component is `c * UNIT * UNIT / len`, rounded to nearest.
/// None for the zero vector.
pub open spec fn normalized_with(x: int, y: int, len: int) -> Option<Vec2i> {
    if len == 0 {
        None
    } else {
        Some(Vec2i { x: round_div(x * UNIT * UNIT, len) as i64, y: round_div(y * UNIT * UNIT, len) as i64 })
    }
}

/// The direction of `(x, y)` scaled to length `UNIT`; none for the zero vector.
pub open spec fn spec_normalize(x: int, y: int) -> Option<Vec2i> {
    normalized_with(x, y, choose|r: int| #[trigger] is_isqrt((x * x + y * y) * UNIT * UNIT, r))
}

pub open spec fn is_unit_bounded(v: Vec2i) -> bool {
    -UNIT <= v.x <= UNIT && -UNIT <= v.y <= UNIT
}

/// Whether `v` has length one within `2 / UNIT`: its squared length is
/// `UNIT * UNIT` within `4 * UNIT`.
pub open spec fn near_unit(v: Vec2i) -> bool {
    UNIT * UNIT - 4 * UNIT <= v.x * v.x + v.y * v.y <= UNIT * UNIT + 4 * UNIT
}

pub proof fn lemma_isqrt_unique(n: int, r1: int, r2: int)
    requires
        is_isqrt(n, r1),
        is_isqrt(n, r2),
    ensures
        r1 == r2,
{
    if r1 < r2 {
        assert((r1 + 1) * (r1 + 1) <= r2 * r2) by (nonlinear_arith)
            requires
                r1 + 1 <= r2,
                0 <= r1,
        ;
    } else if r2 < r1 {
        assert((r2 + 1) * (r2 + 1) <= r1 * r1) by (nonlinear_arith)
            requires
                r2 + 1 <= r1,
                0 <= r2,
        ;
    }
}

/// Integer square root by bisection.
pub fn isqrt(n: u128) -> (r: u128)
    requires
        n < 0x4000_0000_0000_0000_0000_0000_0000_0000,
    ensures
        is_isqrt(n as int, r as int),
{
    let mut lo: u128 = 0;
    let mut hi: u128 = 0x8000_0000_0000_0000;
    assert(0x8000_0000_0000_0000 * 0x8000_0000_0000_0000 == 0x4000_0000_0000_0000_0000_0000_0000_0000)
        by (nonlinear_arith);
    while hi - lo > 1
        invariant
            lo < hi <= 0x8000_0000_0000_0000,
            lo * lo <= n,
            n < hi * hi,
        decreases hi - lo,
    {
        let mid: u128 = lo + (hi - lo) / 2;
        assert(mid * mid < 0x4000_0000_0000_0000_0000_0000_0000_0000) by (nonlinear_arith)
            requires
                mid < 0x8000_0000_0000_0000,
        ;
        if mid * mid <= n {
            lo = mid;
        } else {
            hi = mid;
        }
    }
    lo
}

/// A component times `UNIT` is at most the scaled length.
pub proof fn lemma_component_le_len(c: int, other: int, len: int)
    requires
        is_isqrt((c * c + other * other) * UNIT * UNIT, len),
    ensures
        abs(c) * UNIT <= len,
{
    let u = UNIT as int;
    assert(other * other * u * u >= 0) by (nonlinear_arith);
    assert((c * c + other * other) * u * u == c * c * u * u + other * other * u * u) by (nonlinear_arith);
    let t = abs(c) * u;
    assert(t * t == c * c * u * u) by (nonlinear_arith)
        requires
            t == abs(c) * u,
    ;
    if t > len {
        assert((len + 1) * (len + 1) <= t * t) by (nonlinear_arith)
            requires
                len + 1 <= t,
                0 <= len,
        ;
    }
}

/// Rounds `c * UNIT * UNIT / len` to the nearest integer.
fn scale_component(c: i64, len: u128) -> (r: i64)
    requires
        0 < len,
        abs(c as int) * UNIT <= len,
        abs(c as int) <= NORM_LIMIT,
        len < 0x40_0000_0000_0000,
    ensures
        r == round_div(c * UNIT * UNIT, len as int),
        -UNIT <= r <= UNIT,
{
    let u: i128 = UNIT as i128;
    let m: i128 = if c < 0 { -(c as i128) } else { c as i128 };
    assert(m * u * u <= 536870912 * 16777216 * 16777216) by (nonlinear_arith)
        requires
            0 <= m <= 536870912,
            u == 16777216,
    ;
    assert(m * u * u >= 0) by (nonlinear_arith)
        requires
            0 <= m,
            u == 16777216,
    ;
    let l: i128 = len as i128;
    let q: i128 = (2 * (m * u * u) + l) / (2 * l);
    proof {
        // q <= (2 * l * u + l) / (2 * l) == u
        assert(m * u * u <= l * u) by (nonlinear_arith)
            requires
                m * u <= l,
                u > 0,
                m >= 0,
        ;
        vstd::arithmetic::div_mod::lemma_div_is_ordered(2 * (m * u * u) + l, 2 * l * u + l, 2 * l);
        assert((2 * l * u + l) / (2 * l) == u) by {
            vstd::arithmetic::div_mod::lemma_fundamental_div_mod_converse(2 * l * u + l, 2 * l, u as int, l as int);
        }
        vstd::arithmetic::div_mod::lemma_div_pos_is_pos(2 * (m * u * u) + l, 2 * l);
    }
    if c < 0 {
        assert(-(c * UNIT * UNIT) == m * u * u) by (nonlinear_arith)
            requires
                m == -c,
                u == UNIT,
        ;
        -(q as i64)
    } else {
        assert(c * UNIT * UNIT == m * u * u) by (nonlinear_arith)
            requires
                m == c,
                u == UNIT,
        ;
        q as i64
    }
}

/// A rounded quotient is within half the divisor: `|q * d - n| <= d / 2`.
proof fn lemma_round_div_error(n: int, d: int)
    requires
        0 <= n,
        0 < d,
    ensures
        -d <= 2 * (d * round_div(n, d) - n) <= d,
{
    let q = round_div(n, d);
    vstd::arithmetic::div_mod::lemma_fundamental_div_mod(2 * n + d, 2 * d);
    vstd::arithmetic::div_mod::lemma_mod_bound(2 * n + d, 2 * d);
    assert(2 * n + d == (2 * d) * q + (2 * n + d) % (2 * d));
    assert((2 * d) * q == 2 * (d * q)) by (nonlinear_arith);
}

/// `x * q + y * q == (x + y) * q`.
proof fn lemma_distribute(x: int, y: int, q: int)
    ensures
        x * q + y * q == (x + y) * q,
{
    assert(x * q + y * q == (x + y) * q) by (nonlinear_arith);
}

/// From `s * g <= v * g` with `g > 0`, `s <= v`.
proof fn lemma_cancel(s: int, v: int, g: int)
    requires
        g > 0,
    ensures
        s * g <= v * g ==> s <= v,
        s * g >= v * g ==> s >= v,
{
    if s * g <= v * g && s > v {
        assert(s * g > v * g) by (nonlinear_arith)
            requires
                s > v,
                g > 0,
        ;
    }
    if s * g >= v * g && s < v {
        assert(s * g < v * g) by (nonlinear_arith)
            requires
                s < v,
                g > 0,
        ;
    }
}

/// The linear part of the length bound, over named products.
proof fn lemma_bound_combination(t: int, a2: int, c2: int, e: int, k: int, j: int, h: int, f: int, i: int, g: int)
    requires
        t == a2 + c2 + e,
        k <= a2 <= k + 2 * j,
        j <= h,
        -f <= c2 <= f,
        2 * f <= 3 * h + 3 * i,
        i <= g,
        0 <= 4 * e <= 2 * g,
        4 * g <= h,
    ensures
        k - 4 * h <= t <= k + 4 * h,
{
}

/// The rounded scaling of a vector has length one within `2 / UNIT`.
proof fn lemma_near_unit(x: int, y: int, len: int)
    requires
        is_isqrt((x * x + y * y) * UNIT * UNIT, len),
        len > 0,
    ensures
        near_unit(Vec2i { x: round_div(x * UNIT * UNIT, len) as i64, y: round_div(y * UNIT * UNIT, len) as i64 }),
{
    let u = UNIT as int;
    let a = abs(x) * u * u;
    let b = abs(y) * u * u;
    let ra = round_div(a, len);
    let rb = round_div(b, len);
    let mm = (x * x + y * y) * u * u;
    assert(abs(x) * abs(x) == x * x) by (nonlinear_arith);
    assert(abs(y) * abs(y) == y * y) by (nonlinear_arith);
    let q4 = (u * u) * (u * u);
    assert(a * a == (x * x) * q4) by (nonlinear_arith)
        requires
            a == abs(x) * u * u,
            abs(x) * abs(x) == x * x,
            q4 == (u * u) * (u * u),
    ;
    assert(b * b == (y * y) * q4) by (nonlinear_arith)
        requires
            b == abs(y) * u * u,
            abs(y) * abs(y) == y * y,
            q4 == (u * u) * (u * u),
    ;
    assert(mm * u * u == (x * x + y * y) * q4) by (nonlinear_arith)
        requires
            mm == (x * x + y * y) * u * u,
            q4 == (u * u) * (u * u),
    ;
    lemma_distribute(x * x, y * y, q4);
    assert(a * a + b * b == mm * u * u);
    assert(a >= 0 && b >= 0) by (nonlinear_arith)
        requires
            a == abs(x) * u * u,
            b == abs(y) * u * u,
            u > 0,
    ;
    // the length is at least one unit
    assert(x * x + y * y >= 1) by (nonlinear_arith)
        requires
            len > 0,
            len * len <= (x * x + y * y) * u * u,
    ;
    assert(len >= u) by (nonlinear_arith)
        requires
            (x * x + y * y) >= 1,
            mm == (x * x + y * y) * u * u,
            mm < (len + 1) * (len + 1),
            u > 0,
            len >= 0,
    ;
    lemma_round_div_error(a, len);
    lemma_round_div_error(b, len);
    let ea = len * ra - a;
    let eb = len * rb - b;
    assert((ra * ra + rb * rb) * (len * len) == a * a + b * b + 2 * (a * ea + b * eb) + ea * ea + eb * eb) by (nonlinear_arith)
        requires
            ea == len * ra - a,
            eb == len * rb - b,
    ;
    // a + b is at most 1.5 (len + 1) u
    assert(2 * (a + b) <= 3 * (len + 1) * u) by (nonlinear_arith)
        requires
            a >= 0,
            b >= 0,
            a * a + b * b == mm * u * u,
            mm < (len + 1) * (len + 1),
            u > 0,
            len >= 0,
    ;
    assert(-(a + b) * len <= 2 * (a * ea + b * eb) <= (a + b) * len) by (nonlinear_arith)
        requires
            -len <= 2 * ea <= len,
            -len <= 2 * eb <= len,
            a >= 0,
            b >= 0,
    ;
    assert(4 * (ea * ea + eb * eb) <= 2 * len * len) by (nonlinear_arith)
        requires
            -len <= 2 * ea <= len,
            -len <= 2 * eb <= len,
    ;
    assert(len * len * u * u <= mm * u * u <= (len * len + 2 * len) * u * u) by (nonlinear_arith)
        requires
            len * len <= mm,
            mm < (len + 1) * (len + 1),
            u > 0,
    ;
    let s = ra * ra + rb * rb;
    let g = len * len;
    let t = s * g;
    let k = g * u * u;
    let j = len * u * u;
    let h = g * u;
    let f = (a + b) * len;
    let i = len * u;
    assert(a * a + b * b <= k + 2 * j) by (nonlinear_arith)
        requires
            a * a + b * b == mm * u * u,
            mm <= len * len + 2 * len,
            k == len * len * u * u,
            j == len * u * u,
            u > 0,
    ;
    assert(a * a + b * b >= k) by (nonlinear_arith)
        requires
            a * a + b * b == mm * u * u,
            mm >= len * len,
            k == len * len * u * u,
    ;
    assert(j <= h) by (nonlinear_arith)
        requires
            j == len * u * u,
            h == len * len * u,
            u <= len,
            u > 0,
    ;
    assert(2 * f <= 3 * h + 3 * i) by (nonlinear_arith)
        requires
            f == (a + b) * len,
            2 * (a + b) <= 3 * (len + 1) * u,
            h == len * len * u,
            i == len * u,
            len > 0,
    ;
    assert(i <= g) by (nonlinear_arith)
        requires
            i == len * u,
            g == len * len,
            u <= len,
            len > 0,
    ;
    assert(4 * g <= h) by (nonlinear_arith)
        requires
            h == g * u,
            g >= 0,
            u >= 16,
    ;
    assert(ea * ea + eb * eb >= 0) by (nonlinear_arith);
    assert(4 * (ea * ea + eb * eb) <= 2 * g) by (nonlinear_arith)
        requires
            4 * (ea * ea + eb * eb) <= 2 * len * len,
            g == len * len,
    ;
    assert(-(a + b) * len == -f) by (nonlinear_arith)
        requires
            f == (a + b) * len,
    ;
    lemma_bound_combination(t, a * a + b * b, 2 * (a * ea + b * eb), ea * ea + eb * eb, k, j, h, f, i, g);
    assert(k + 4 * h == (u * u + 4 * u) * g) by (nonlinear_arith)
        requires
            k == g * u * u,
            h == g * u,
    ;
    assert(k - 4 * h == (u * u - 4 * u) * g) by (nonlinear_arith)
        requires
            k == g * u * u,
            h == g * u,
    ;
    assert(g > 0) by (nonlinear_arith)
        requires
            g == len * len,
            len > 0,
    ;
    lemma_cancel(s, u * u + 4 * u, g);
    lemma_cancel(s, u * u - 4 * u, g);
    let rx = round_div(x * u * u, len);
    let ry = round_div(y * u * u, len);
    if x < 0 {
        assert(x * u * u == -(abs(x) * u * u)) by (nonlinear_arith)
            requires
                x < 0,
        ;
        assert(a > 0) by (nonlinear_arith)
            requires
                a == abs(x) * u * u,
                x < 0,
                u > 0,
        ;
        assert(rx == -ra);
    } else {
        assert(x * u * u == abs(x) * u * u);
        assert(rx == ra);
    }
    assert(rx * rx == ra * ra) by (nonlinear_arith)
        requires
            rx == ra || rx == -ra,
    ;
    if y < 0 {
        assert(y * u * u == -(abs(y) * u * u)) by (nonlinear_arith)
            requires
                y < 0,
        ;
        assert(b > 0) by (nonlinear_arith)
            requires
                b == abs(y) * u * u,
                y < 0,
                u > 0,
        ;
        assert(ry == -rb);
    } else {
        assert(y * u * u == abs(y) * u * u);
        assert(ry == rb);
    }
    assert(ry * ry == rb * rb) by (nonlinear_arith)
        requires
            ry == rb || ry == -rb,
    ;
    lemma_component_le_len(x, y, len);
    assert(y * y + x * x == x * x + y * y);
    lemma_component_le_len(y, x, len);
    lemma_round_div_bounded(x, len);
    lemma_round_div_bounded(y, len);
}

/// A rounded scaled component fits in a machine word.
proof fn lemma_round_div_bounded(c: int, len: int)
    requires
        len > 0,
        abs(c) * UNIT <= len,
    ensures
        -UNIT <= round_div(c * UNIT * UNIT, len) <= UNIT,
{
    let u = UNIT as int;
    let m = abs(c) * u * u;
    assert(m <= len * u) by (nonlinear_arith)
        requires
            abs(c) * u <= len,
            m == abs(c) * u * u,
            u > 0,
    ;
    assert(m >= 0) by (nonlinear_arith)
        requires
            m == abs(c) * u * u,
    ;
    vstd::arithmetic::div_mod::lemma_div_is_ordered(2 * m + len, 2 * len * u + len, 2 * len);
    vstd::arithmetic::div_mod::lemma_fundamental_div_mod_converse(2 * len * u + len, 2 * len, u, len);
    vstd::arithmetic::div_mod::lemma_div_pos_is_pos(2 * m + len, 2 * len);
    if c < 0 {
        assert(c * u * u == -m) by (nonlinear_arith)
            requires
                c < 0,
                m == abs(c) * u * u,
        ;
    } else {
        assert(c * u * u == m);
    }
}

/// The direction of `(x, y)` scaled to length `UNIT`; none for the zero vector.
pub fn normalize(x: i64, y: i64) -> (r: Option<Vec2i>)
    requires
        -NORM_LIMIT <= x <= NORM_LIMIT,
        -NORM_LIMIT <= y <= NORM_LIMIT,
    ensures
        r == spec_normalize(x as int, y as int),
        r is None <==> (x == 0 && y == 0),
        r matches Some(v) ==> is_unit_bounded(v) && near_unit(v),
{
    let u: u128 = UNIT as u128;
    let xi: i128 = x as i128;
    let yi: i128 = y as i128;
    assert(xi * xi <= 536870912 * 536870912 && yi * yi <= 536870912 * 536870912 && xi * xi >= 0
        && yi * yi >= 0) by (nonlinear_arith)
        requires
            -536870912 <= xi <= 536870912,
            -536870912 <= yi <= 536870912,
    ;
    let n: u128 = (xi * xi + yi * yi) as u128;
    assert(n * u * u < 0x4000_0000_0000_0000_0000_0000_0000_0000) by (nonlinear_arith)
        requires
            n <= 2 * 536870912 * 536870912,
            u == 16777216,
    ;
    let len: u128 = isqrt(n * u * u);
    proof {
        let n_int = (x * x + y * y) * UNIT * UNIT;
        assert(n_int == (n * u * u) as int);
        assert(n * u * u <= 0x800_0000_0000_0000_0000_0000_0000) by (nonlinear_arith)
            requires
                n <= 2 * 536870912 * 536870912,
                u == 16777216,
        ;
        let chosen = choose|r: int| #[trigger] is_isqrt(n_int, r);
        assert(is_isqrt(n_int, len as int));
        lemma_isqrt_unique(n_int, chosen, len as int);
        lemma_component_le_len(x as int, y as int, len as int);
        assert(y * y + x * x == x * x + y * y);
        assert(len < 0x40_0000_0000_0000) by (nonlinear_arith)
            requires
                len * len <= n_int,
                n_int <= 0x800_0000_0000_0000_0000_0000_0000int,
                len >= 0,
        ;
        lemma_component_le_len(y as int, x as int, len as int);
        if len == 0 {
            assert(n_int < 1) by (nonlinear_arith)
                requires
                    n_int < (len + 1) * (len + 1),
                    len == 0,
            ;
            assert(x * x >= 0 && y * y >= 0) by (nonlinear_arith);
            assert(x * x + y * y < 1) by (nonlinear_arith)
                requires
                    (x * x + y * y) * UNIT * UNIT < 1,
                    x * x + y * y >= 0,
            ;
            assert(x == 0) by (nonlinear_arith)
                requires
                    x * x < 1,
            ;
            assert(y == 0) by (nonlinear_arith)
                requires
                    y * y < 1,
            ;
        } else {
            lemma_near_unit(x as int, y as int, len as int);
        }
        if x == 0 && y == 0 {
            assert(n_int == 0) by (nonlinear_arith)
                requires
                    x == 0,
                    y == 0,
                    n_int == (x * x + y * y) * UNIT * UNIT,
            ;
            assert(len * len <= 0);
            assert(len == 0) by (nonlinear_arith)
                requires
                    len * len <= 0,
            ;
        }
    }
    if len == 0 {
        None
    } else {
        let lx = scale_component(x, len);
        let ly = scale_component(y, len);
        Some(Vec2i { x: lx, y: ly })
    }
}

/// Division by a positive divisor, rounding toward zero.
pub fn div_trunc(n: i64, d: i64) -> (r: i64)
    requires
        d > 0,
        -4611686018427387904 <= n <= 4611686018427387904,
    ensures
        r == trunc_div(n as int, d as int),
{
    if n >= 0 {
        n / d
    } else {
        let m: i64 = -n;
        let q: i64 = m / d;
        proof {
            vstd::arithmetic::div_mod::lemma_div_pos_is_pos(m as int, d as int);
            vstd::arithmetic::div_mod::lemma_div_is_ordered_by_denominator(m as int, 1, d as int);
        }
        -q
    }
}

/// A truncated quotient of a bounded value is bounded by the bound's quotient.
pub proof fn lemma_small_quotient(n: int, b: int, d: int)
    requires
        0 <= b,
        0 < d,
        -b <= n <= b,
    ensures
        -(b / d) <= trunc_div(n, d) <= b / d,
{
    if n >= 0 {
        vstd::arithmetic::div_mod::lemma_div_is_ordered(n, b, d);
        vstd::arithmetic::div_mod::lemma_div_pos_is_pos(n, d);
    } else {
        vstd::arithmetic::div_mod::lemma_div_is_ordered(-n, b, d);
        vstd::arithmetic::div_mod::lemma_div_pos_is_pos(-n, d);
    }
}

/// A rounded quotient of a value within `b * d` is within `b`.
pub proof fn lemma_round_div_le(n: int, d: int, b: int)
    requires
        0 < d,
        0 <= b,
        -(b * d) <= n <= b * d,
    ensures
        -b <= round_div(n, d) <= b,
{
    let m = abs(n);
    assert(2 * b * d == 2 * (b * d)) by (nonlinear_arith);
    assert(2 * b * d + d == b * (2 * d) + d) by (nonlinear_arith);
    vstd::arithmetic::div_mod::lemma_div_is_ordered(2 * m + d, 2 * b * d + d, 2 * d);
    vstd::arithmetic::div_mod::lemma_fundamental_div_mod_converse(2 * b * d + d, 2 * d, b, d);
    vstd::arithmetic::div_mod::lemma_div_pos_is_pos(2 * m + d, 2 * d);
}

/// Division by a positive divisor, rounding to the nearest integer.
pub fn div_round(n: i64, d: i64) -> (r: i64)
    requires
        d > 0,
        -2305843009213693952 <= n <= 2305843009213693952,
        d <= 2305843009213693952,
    ensures
        r == round_div(n as int, d as int),
{
    if n >= 0 {
        (2 * n + d) / (2 * d)
    } else {
        let m: i64 = -n;
        let q: i64 = (2 * m + d) / (2 * d);
        proof {
            vstd::arithmetic::div_mod::lemma_div_pos_is_pos(2 * m + d, 2 * d as int);
            vstd::arithmetic::div_mod::lemma_div_is_ordered_by_denominator(2 * m + d, 1, 2 * d as int);
        }
        -q
    }
}

/// Largest integer not above `a / d`.
pub open spec fn floor_div(a: int, d: int) -> int {
    a / d
}

/// Floor division by a positive divisor, rounding toward negative infinity.
pub fn div_floor(a: i64, d: i64) -> (r: i64)
    requires
        0 < d <= WORLD_LIMIT,
        -4 * WORLD_LIMIT <= a <= 4 * WORLD_LIMIT,
    ensures
        r == floor_div(a as int, d as int),
{
    if a >= 0 {
        a / d
    } else {
        let m: i64 = -a;
        let k: i64 = (m + d - 1) / d;
        proof {
            lemma_fundamental_div_mod(m + d - 1, d as int);
            let s = (m + d - 1) % (d as int);
            assert(0 <= s < d) by {
                vstd::arithmetic::div_mod::lemma_mod_bound(m + d - 1, d as int);
            }
            assert(m + d - 1 == d * k + s);
            assert(a == (-k) * d + (d - 1 - s)) by (nonlinear_arith)
                requires
                    m + d - 1 == d * k + s,
                    a == -m,
            ;
            lemma_fundamental_div_mod_converse(a as int, d as int, -k, d - 1 - s);
        }
        -k
    }
}

} // verus!
