//! Fixed-point scalars.
//!
//! Every quantity of the simulation (energy, angles, coordinates, activations,
//! controller weights) is a signed integer counting millionths of a unit.
//! Controller and genome values are confined to `[-LIMIT, LIMIT]`; every
//! operation that could leave that interval saturates at its ends.

use vstd::prelude::*;
use vstd::arithmetic::div_mod::lemma_fundamental_div_mod;
use vstd::arithmetic::div_mod::lemma_fundamental_div_mod_converse;
use vstd::arithmetic::div_mod::lemma_mod_bound;
use vstd::arithmetic::div_mod::lemma_mod_multiples_vanish;

verus! {

/// One whole unit.
pub const ONE: i64 = 1_000_000;

/// Largest magnitude of a confined scalar: one million units.
pub const LIMIT: i64 = 1_000_000_000_000;

/// A quarter turn, in millionths of a radian.
pub const HALF_PI: i64 = 1_570_796;

/// Half a turn, in millionths of a radian.
pub const PI: i64 = 3_141_593;

/// A full turn, in millionths of a radian.
pub const TAU: i64 = 6_283_185;

/// Beyond this magnitude the hyperbolic tangent is taken to be saturated.
pub const TANH_CUTOFF: i64 = 8_000_000;

/// Beyond this magnitude the logistic function is taken to be saturated.
pub const SIGMOID_CUTOFF: i64 = 16_000_000;

/// One whole unit with three guard digits, as the activation functions count
/// while they compute.
pub const WIDE_ONE: u128 = 1_000_000_000;

/// `WIDE_ONE` squared.
pub const WIDE_ONE_SQUARED: u128 = 1_000_000_000_000_000_000;

/// A multiple of `TAU` that exceeds every sum of two `i64` values and `PI`.
pub const TURN_OFFSET: i128 = 36_893_488_147_422_894_735;

/// `x` brought into `[lo, hi]`.
pub open spec fn clamp_int(x: int, lo: int, hi: int) -> int {
    if x < lo {
        lo
    } else if x > hi {
        hi
    } else {
        x
    }
}

/// The magnitude of `x`.
pub open spec fn abs_int(x: int) -> int {
    if x < 0 {
        -x
    } else {
        x
    }
}

/// Whether `x` lies in the interval of confined scalars.
pub open spec fn in_range(x: int) -> bool {
    -LIMIT <= x <= LIMIT
}

/// Whether every element of `s` is a confined scalar.
pub open spec fn all_in_range(s: Seq<i64>) -> bool {
    forall|i: int| 0 <= i < s.len() ==> in_range(#[trigger] s[i] as int)
}

/// `x` brought into the interval of confined scalars.
pub open spec fn saturate(x: int) -> int {
    clamp_int(x, -LIMIT, LIMIT as int)
}

/// The product of two fixed-point numbers, rounded down and saturated.
pub open spec fn scaled(value: int, factor: int) -> int {
    saturate((value * factor) / (ONE as int))
}

/// Whether `r` is the integer square root of `n`.
pub open spec fn is_root(n: int, r: int) -> bool {
    0 <= r && r * r <= n < (r + 1) * (r + 1)
}

/// The integer square root of `n`: the largest `r` with `r * r <= n`.
pub open spec fn root(n: int) -> int {
    choose|r: int| is_root(n, r)
}

/// The hyperbolic tangent of an argument `e` in `[0, WIDE_ONE]`, with guard
/// digits: the rational approximant
/// `e (945 + 105 e^2 + e^4) / (945 + 420 e^2 + 15 e^4)`, rounded down.
pub open spec fn tanh_small(e: int) -> int {
    let y = (e * e) / (WIDE_ONE as int);
    (e * (945 * WIDE_ONE_SQUARED + 105 * WIDE_ONE * y + y * y)) / (945 * WIDE_ONE_SQUARED + 420
        * WIDE_ONE * y + 15 * (y * y))
}

/// The hyperbolic tangent of twice the argument whose hyperbolic tangent is
/// `t`, with guard digits: `2 t / (1 + t^2)`, rounded down.
pub open spec fn doubled(t: int) -> int {
    (2 * t * WIDE_ONE_SQUARED) / (WIDE_ONE_SQUARED + t * t)
}

/// The hyperbolic tangent of eight times `e`, with guard digits, for `e` in
/// `[0, WIDE_ONE]`.
pub open spec fn tanh_wide(e: int) -> int {
    doubled(doubled(doubled(tanh_small(e))))
}

/// The fixed-point hyperbolic tangent, rounded to the nearest millionth: odd,
/// and within `[-ONE, ONE]`.
pub open spec fn tanh_spec(x: int) -> int {
    let m = clamp_int(abs_int(x), 0, TANH_CUTOFF as int);
    let t = clamp_int((tanh_wide(m * 125) + 500) / 1000, 0, ONE as int);
    if x < 0 {
        -t
    } else {
        t
    }
}

/// The fixed-point logistic function, by `(1 + tanh(x / 2)) / 2` for `x >= 0`
/// and by symmetry below zero, rounded to the nearest millionth.
pub open spec fn sigmoid_spec(x: int) -> int {
    let m = clamp_int(abs_int(x), 0, SIGMOID_CUTOFF as int);
    let s = clamp_int((WIDE_ONE + tanh_wide((m * 125) / 2) + 1000) / 2000, 0, ONE as int);
    if x < 0 {
        ONE - s
    } else {
        s
    }
}

/// An angle brought into `[-PI, TAU - PI)` by whole turns.
pub open spec fn wrap_angle(a: int) -> int {
    (a + PI) % (TAU as int) - PI
}

/// A number has one integer square root at most.
pub proof fn lemma_root_unique(n: int, a: int, b: int)
    requires
        is_root(n, a),
        is_root(n, b),
    ensures
        a == b,
{
    if a < b {
        assert((a + 1) * (a + 1) <= b * b) by (nonlinear_arith)
            requires
                0 <= a,
                a + 1 <= b,
        ;
    }
    if b < a {
        assert((b + 1) * (b + 1) <= a * a) by (nonlinear_arith)
            requires
                0 <= b,
                b + 1 <= a,
        ;
    }
}

/// Every natural number has an integer square root.
pub proof fn lemma_root_exists(n: int)
    requires
        n >= 0,
    ensures
        is_root(n, root(n)),
    decreases n,
{
    if n == 0 {
        assert(is_root(0, 0));
    } else {
        lemma_root_exists(n - 1);
        let r = root(n - 1);
        if (r + 1) * (r + 1) <= n {
            assert((r + 1) * (r + 1) < (r + 2) * (r + 2)) by (nonlinear_arith)
                requires
                    0 <= r,
            ;
            assert(is_root(n, r + 1));
        } else {
            assert(is_root(n, r));
        }
    }
}

/// A sum of two squares has a root no smaller than either side.
pub proof fn lemma_root_dominates(a: int, b: int, r: int)
    requires
        0 <= a,
        is_root(a * a + b * b, r),
    ensures
        a <= r,
{
    if r < a {
        assert((r + 1) * (r + 1) <= a * a) by (nonlinear_arith)
            requires
                0 <= r,
                r + 1 <= a,
        ;
        assert(b * b >= 0) by (nonlinear_arith);
    }
}

/// A quotient is no more than `c` if the dividend is no more than `c` times
/// the divisor.
pub proof fn lemma_quotient_bound(n: int, d: int, c: int)
    requires
        d > 0,
        0 <= n <= c * d,
    ensures
        0 <= n / d <= c,
{
    lemma_fundamental_div_mod(n, d);
    lemma_mod_bound(n, d);
    let q = n / d;
    let r = n % d;
    assert(0 <= q <= c) by (nonlinear_arith)
        requires
            n == d * q + r,
            0 <= r < d,
            0 <= n <= c * d,
            d > 0,
    ;
}

/// The hyperbolic tangent is odd, keeps the sign of its argument and stays
/// within `[-ONE, ONE]`.
pub proof fn lemma_tanh_bounds(x: int)
    ensures
        -ONE <= tanh_spec(x) <= ONE,
        x >= 0 ==> tanh_spec(x) >= 0,
        x <= 0 ==> tanh_spec(x) <= 0,
        tanh_spec(-x) == -tanh_spec(x),
        tanh_spec(0) == 0,
{
    assert(tanh_wide(0) == 0) by {
        assert(0int * 0int == 0);
        assert(0int / (WIDE_ONE as int) == 0);
        assert(tanh_small(0) == 0);
        assert(doubled(0) == 0);
    }
}

/// The logistic function stays within `[0, ONE]`, is one half at zero, and
/// its values at `x` and `-x` add up to one.
pub proof fn lemma_sigmoid_bounds(x: int)
    ensures
        0 <= sigmoid_spec(x) <= ONE,
        sigmoid_spec(0) == ONE / 2,
        sigmoid_spec(-x) == ONE - sigmoid_spec(x) || x == 0,
{
    assert(tanh_wide(0) == 0) by {
        assert(0int * 0int == 0);
        assert(0int / (WIDE_ONE as int) == 0);
        assert(tanh_small(0) == 0);
        assert(doubled(0) == 0);
    }
    assert((0int * 125) / 2 == 0);
}

/// `x` brought into `[lo, hi]`.
pub fn clamp(x: i64, lo: i64, hi: i64) -> (r: i64)
    requires
        lo <= hi,
    ensures
        r == clamp_int(x as int, lo as int, hi as int),
{
    if x < lo {
        lo
    } else if x > hi {
        hi
    } else {
        x
    }
}

/// The magnitude of `x`.
pub fn magnitude(x: i64) -> (r: u64)
    ensures
        r == abs_int(x as int),
{
    if x >= 0 {
        x as u64
    } else {
        (-(x as i128)) as u64
    }
}

/// The distance between two coordinates on one axis.
pub fn span(a: i64, b: i64) -> (r: u64)
    ensures
        r == abs_int(a - b),
{
    if a >= b {
        ((a as i128) - (b as i128)) as u64
    } else {
        ((b as i128) - (a as i128)) as u64
    }
}

/// Brings a wide intermediate result into the interval of confined scalars.
pub fn saturating(v: i128) -> (r: i64)
    ensures
        r == saturate(v as int),
{
    if v < -(LIMIT as i128) {
        -LIMIT
    } else if v > LIMIT as i128 {
        LIMIT
    } else {
        v as i64
    }
}

/// `value + noise`, saturated.
pub fn perturb(value: i64, noise: i64) -> (r: i64)
    ensures
        r == saturate(value + noise),
{
    saturating(value as i128 + noise as i128)
}

/// `a + b`, brought into `[lo, hi]`.
pub fn clamp_sum(a: i64, b: i64, lo: i64, hi: i64) -> (r: i64)
    requires
        lo <= hi,
    ensures
        r == clamp_int(a + b, lo as int, hi as int),
{
    let v: i128 = a as i128 + b as i128;
    if v < lo as i128 {
        lo
    } else if v > hi as i128 {
        hi
    } else {
        v as i64
    }
}

/// `p / d` rounded towards minus infinity.
pub fn floor_div(p: i128, d: i128) -> (q: i128)
    requires
        d > 0,
        p > i128::MIN,
    ensures
        q == (p as int) / (d as int),
{
    if p >= 0 {
        p / d
    } else {
        let n: i128 = -p;
        let q: i128 = n / d;
        let r: i128 = n % d;
        proof {
            assert(n == d * q + r) by {
                lemma_fundamental_div_mod(n as int, d as int);
            }
            assert(q <= n) by (nonlinear_arith)
                requires
                    n == d * q + r,
                    d >= 1,
                    q >= 0,
                    r >= 0,
            ;
        }
        if r == 0 {
            proof {
                assert(p == (-q) * d + 0) by (nonlinear_arith)
                    requires
                        n == d * q + r,
                        r == 0,
                        p == -n,
                ;
                lemma_fundamental_div_mod_converse(p as int, d as int, -(q as int), 0);
            }
            -q
        } else {
            proof {
                assert(p == (-q - 1) * d + (d - r)) by (nonlinear_arith)
                    requires
                        n == d * q + r,
                        p == -n,
                ;
                lemma_fundamental_div_mod_converse(
                    p as int,
                    d as int,
                    -(q as int) - 1,
                    (d - r) as int,
                );
            }
            -q - 1
        }
    }
}

/// The product of a fixed-point value and a fixed-point factor.
pub fn scale(value: i64, factor: i64) -> (r: i64)
    ensures
        r == scaled(value as int, factor as int),
{
    let a: i128 = value as i128;
    let b: i128 = factor as i128;
    assert(-0x4000_0000_0000_0000_0000_0000_0000_0000 <= a * b
        <= 0x4000_0000_0000_0000_0000_0000_0000_0000) by (nonlinear_arith)
        requires
            -0x8000_0000_0000_0000 <= a <= 0x8000_0000_0000_0000,
            -0x8000_0000_0000_0000 <= b <= 0x8000_0000_0000_0000,
    ;
    let p: i128 = a * b;
    saturating(floor_div(p, ONE as i128))
}

/// The integer square root.
pub fn isqrt(n: u64) -> (r: u64)
    ensures
        is_root(n as int, r as int),
        r == root(n as int),
{
    let mut lo: u64 = 0;
    let mut hi: u64 = 0x1_0000_0000;
    assert(0x1_0000_0000int * 0x1_0000_0000int > n) by (nonlinear_arith)
        requires
            n <= 0xffff_ffff_ffff_ffff,
    ;
    while hi - lo > 1
        invariant
            lo < hi <= 0x1_0000_0000,
            lo * lo <= n < hi * hi,
        decreases hi - lo,
    {
        let mid: u64 = lo + (hi - lo) / 2;
        assert(mid * mid < 0x1_0000_0000_0000_0000) by (nonlinear_arith)
            requires
                0 <= mid < 0x1_0000_0000,
        ;
        if mid * mid <= n {
            lo = mid;
        } else {
            hi = mid;
        }
    }
    proof {
        assert(hi == lo + 1);
        assert(is_root(n as int, lo as int));
        let c = root(n as int);
        lemma_root_unique(n as int, lo as int, c);
    }
    lo
}

fn double(t: u128) -> (r: u128)
    requires
        t <= WIDE_ONE,
    ensures
        r == doubled(t as int),
        r <= WIDE_ONE,
{
    assert(t * t <= 1_000_000_000_000_000_000) by (nonlinear_arith)
        requires
            0 <= t <= 1_000_000_000,
    ;
    assert(2 * t * WIDE_ONE_SQUARED <= 2_000_000_000_000_000_000_000_000_000) by (nonlinear_arith)
        requires
            0 <= t <= 1_000_000_000,
            WIDE_ONE_SQUARED == 1_000_000_000_000_000_000,
    ;
    let upper: u128 = 2 * t * WIDE_ONE_SQUARED;
    let lower: u128 = WIDE_ONE_SQUARED + t * t;
    proof {
        assert(upper <= WIDE_ONE * lower) by (nonlinear_arith)
            requires
                upper == 2 * t * 1_000_000_000_000_000_000,
                lower == 1_000_000_000_000_000_000 + t * t,
                WIDE_ONE == 1_000_000_000,
                0 <= t <= 1_000_000_000,
        ;
        lemma_quotient_bound(upper as int, lower as int, WIDE_ONE as int);
    }
    upper / lower
}

fn tanh_of_eight_times(e: u128) -> (t: u128)
    requires
        e <= WIDE_ONE,
    ensures
        t == tanh_wide(e as int),
        t <= WIDE_ONE,
{
    assert(e * e <= 1_000_000_000_000_000_000) by (nonlinear_arith)
        requires
            0 <= e <= 1_000_000_000,
    ;
    let y: u128 = (e * e) / WIDE_ONE;
    proof {
        lemma_quotient_bound((e * e) as int, WIDE_ONE as int, WIDE_ONE as int);
    }
    assert(y * y <= 1_000_000_000_000_000_000) by (nonlinear_arith)
        requires
            0 <= y <= 1_000_000_000,
    ;
    assert(WIDE_ONE * y <= 1_000_000_000_000_000_000) by (nonlinear_arith)
        requires
            0 <= y <= 1_000_000_000,
            WIDE_ONE == 1_000_000_000,
    ;
    let upper: u128 = 945 * WIDE_ONE_SQUARED + 105 * (WIDE_ONE * y) + y * y;
    let lower: u128 = 945 * WIDE_ONE_SQUARED + 420 * (WIDE_ONE * y) + 15 * (y * y);
    assert(e * upper <= e * lower && e * lower <= 1_380_000_000_000_000_000_000_000_000_000)
        by (nonlinear_arith)
        requires
            0 <= e <= 1_000_000_000,
            0 <= upper <= lower,
            lower <= 1_380_000_000_000_000_000_000,
    ;
    proof {
        assert(105 * WIDE_ONE * y == 105 * (WIDE_ONE * y)) by (nonlinear_arith);
        assert(420 * WIDE_ONE * y == 420 * (WIDE_ONE * y)) by (nonlinear_arith);
        assert(e * lower <= WIDE_ONE * lower) by (nonlinear_arith)
            requires
                0 <= e <= WIDE_ONE,
                lower >= 0,
        ;
        lemma_quotient_bound((e * upper) as int, lower as int, WIDE_ONE as int);
    }
    let small: u128 = (e * upper) / lower;
    assert(small == tanh_small(e as int));
    double(double(double(small)))
}

/// The fixed-point hyperbolic tangent.
pub fn tanh(x: i64) -> (r: i64)
    ensures
        r == tanh_spec(x as int),
        -ONE <= r <= ONE,
{
    let a: u64 = magnitude(x);
    let m: u128 = if a > 8_000_000 {
        8_000_000
    } else {
        a as u128
    };
    let wide: u128 = tanh_of_eight_times(m * 125);
    let q: u128 = (wide + 500) / 1000;
    let t: i64 = if q > ONE as u128 {
        ONE
    } else {
        q as i64
    };
    if x < 0 {
        -t
    } else {
        t
    }
}

/// The fixed-point logistic function.
pub fn sigmoid(x: i64) -> (r: i64)
    ensures
        r == sigmoid_spec(x as int),
        0 <= r <= ONE,
{
    let a: u64 = magnitude(x);
    let m: u128 = if a > 16_000_000 {
        16_000_000
    } else {
        a as u128
    };
    let wide: u128 = tanh_of_eight_times((m * 125) / 2);
    let q: u128 = (WIDE_ONE + wide + 1000) / 2000;
    let s: i64 = if q > ONE as u128 {
        ONE
    } else {
        q as i64
    };
    if x < 0 {
        ONE - s
    } else {
        s
    }
}

/// Replaces a value by its logistic image.
pub fn sigmoid_inplace(x: &mut i64)
    ensures
        *final(x) == sigmoid_spec(*old(x) as int),
{
    *x = sigmoid(*x);
}

/// Replaces a value by its hyperbolic tangent.
pub fn tanh_inplace(x: &mut i64)
    ensures
        *final(x) == tanh_spec(*old(x) as int),
{
    *x = tanh(*x);
}

/// The angle `angle + delta`, brought into `[-PI, TAU - PI)` by whole turns.
pub fn turn(angle: i64, delta: i64) -> (r: i64)
    ensures
        r == wrap_angle(angle + delta),
        -PI <= r < TAU - PI,
{
    let s: i128 = angle as i128 + delta as i128 + PI as i128;
    let shifted: i128 = s + TURN_OFFSET;
    let m: i128 = shifted % (TAU as i128);
    proof {
        assert(TURN_OFFSET == (TAU as int) * 5_871_781_293_631);
        lemma_mod_multiples_vanish(5_871_781_293_631, s as int, TAU as int);
    }
    (m - PI as i128) as i64
}

} // verus!
