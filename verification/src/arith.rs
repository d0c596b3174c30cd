//! Integer arithmetic shared by the simulation: saturation to the coordinate
//! range, truncating scaling by a ratio, and the integer square root.

use vstd::prelude::*;

verus! {

/// Largest value that `floor_sqrt_u128` accepts: the squared length of any
/// difference of two coordinate pairs stays below it.
pub const SQUARE_LIMIT: u128 = 0x4_0000_0000_0000_0000;

/// The absolute value of `v`.
pub open spec fn magnitude(v: int) -> int {
    if v < 0 {
        -v
    } else {
        v
    }
}

/// `v` lies between `a` and `b`, whichever of the two is the larger.
pub open spec fn between(v: int, a: int, b: int) -> bool {
    (a <= v <= b) || (b <= v <= a)
}

/// `v` brought into the range of a coordinate.
pub open spec fn saturate(v: int) -> int {
    if v < i32::MIN {
        i32::MIN as int
    } else if v > i32::MAX {
        i32::MAX as int
    } else {
        v
    }
}

/// Signed division rounding toward zero, for a positive divisor.
pub open spec fn div_toward_zero(a: int, b: int) -> int {
    if a >= 0 {
        a / b
    } else {
        -((-a) / b)
    }
}

/// `c` times the ratio `num / den`, rounded toward zero.
pub open spec fn scale(c: int, num: int, den: int) -> int {
    div_toward_zero(c * num, den)
}

/// `r` is the integer square root of `n`, rounded down.
pub open spec fn is_floor_sqrt(r: int, n: int) -> bool {
    0 <= r && r * r <= n < (r + 1) * (r + 1)
}

/// The integer square root of `n`, rounded down.
pub open spec fn floor_sqrt(n: int) -> int {
    choose|r: int| is_floor_sqrt(r, n)
}

/// Squaring is monotone on the naturals.
pub proof fn lemma_square_monotone(a: int, b: int)
    by (nonlinear_arith)
    requires
        0 <= a <= b,
    ensures
        a * a <= b * b,
{
}

/// Squaring is strictly monotone on the naturals.
pub proof fn lemma_square_strictly_monotone(a: int, b: int)
    by (nonlinear_arith)
    requires
        0 <= a < b,
    ensures
        a * a < b * b,
{
}

/// The square of a product is the product of the squares.
pub proof fn lemma_square_of_product(u: int, x: int)
    by (nonlinear_arith)
    ensures
        (u * x) * (u * x) == (u * u) * (x * x),
{
}

/// A number has at most one rounded-down square root.
pub proof fn lemma_floor_sqrt_unique(r1: int, r2: int, n: int)
    requires
        is_floor_sqrt(r1, n),
        is_floor_sqrt(r2, n),
    ensures
        r1 == r2,
{
    if r1 < r2 {
        lemma_square_monotone(r1 + 1, r2);
    } else if r2 < r1 {
        lemma_square_monotone(r2 + 1, r1);
    }
}

/// Every natural number has a rounded-down square root.
pub proof fn lemma_floor_sqrt_exists(n: int)
    requires
        0 <= n,
    ensures
        is_floor_sqrt(floor_sqrt(n), n),
    decreases n,
{
    if n == 0 {
        assert(is_floor_sqrt(0, 0));
    } else {
        lemma_floor_sqrt_exists(n - 1);
        let r = floor_sqrt(n - 1);
        if (r + 1) * (r + 1) <= n {
            assert((r + 2) * (r + 2) > (r + 1) * (r + 1)) by (nonlinear_arith)
                requires
                    0 <= r,
            ;
            assert(is_floor_sqrt(r + 1, n));
        } else {
            assert(is_floor_sqrt(r, n));
        }
    }
}

/// The rounded-down square root is monotone.
pub proof fn lemma_floor_sqrt_monotone(m: int, n: int)
    requires
        0 <= m <= n,
    ensures
        0 <= floor_sqrt(m) <= floor_sqrt(n),
{
    lemma_floor_sqrt_exists(m);
    lemma_floor_sqrt_exists(n);
    if floor_sqrt(n) < floor_sqrt(m) {
        lemma_square_monotone(floor_sqrt(n) + 1, floor_sqrt(m));
    }
}

/// The rounded-down square root of `n` is at least `r` exactly when `n` is at
/// least the square of `r`.
pub proof fn lemma_floor_sqrt_at_least(r: int, n: int)
    requires
        0 <= r,
        0 <= n,
    ensures
        r <= floor_sqrt(n) <==> r * r <= n,
{
    lemma_floor_sqrt_exists(n);
    let q = floor_sqrt(n);
    if r <= q {
        lemma_square_monotone(r, q);
    } else {
        lemma_square_monotone(q + 1, r);
    }
}

/// Whatever satisfies `is_floor_sqrt` is the value of `floor_sqrt`.
pub proof fn lemma_floor_sqrt_is(r: int, n: int)
    requires
        is_floor_sqrt(r, n),
    ensures
        floor_sqrt(n) == r,
{
    lemma_floor_sqrt_unique(r, floor_sqrt(n), n);
}

/// The magnitude of a scaled value is the rounded-down quotient of the
/// magnitudes, and its sign is that of the product.
pub proof fn lemma_scale_magnitude(c: int, num: int, den: int)
    requires
        den > 0,
    ensures
        magnitude(scale(c, num, den)) == (magnitude(c) * magnitude(num)) / den,
        c * num >= 0 ==> scale(c, num, den) >= 0,
        c * num <= 0 ==> scale(c, num, den) <= 0,
{
    assert(magnitude(c * num) == magnitude(c) * magnitude(num)) by (nonlinear_arith);
    assert(0int / den == 0) by (nonlinear_arith)
        requires
            den > 0,
    ;
    assert(magnitude(c * num) / den >= 0) by (nonlinear_arith)
        requires
            den > 0,
            magnitude(c * num) >= 0,
    ;
}

/// Scaling a component that is no longer than the divisor yields at most the
/// multiplier, in magnitude.
pub proof fn lemma_scale_within_num(c: int, num: int, den: int)
    requires
        den > 0,
        magnitude(c) <= den,
    ensures
        magnitude(scale(c, num, den)) <= magnitude(num),
{
    lemma_scale_magnitude(c, num, den);
    let a = magnitude(c);
    let b = magnitude(num);
    assert((a * b) / den <= b) by (nonlinear_arith)
        requires
            0 <= a <= den,
            0 <= b,
            den > 0,
    ;
}

/// Scaling by a ratio of at most one never lengthens.
pub proof fn lemma_scale_within_c(c: int, num: int, den: int)
    requires
        den > 0,
        magnitude(num) <= den,
    ensures
        magnitude(scale(c, num, den)) <= magnitude(c),
{
    lemma_scale_magnitude(c, num, den);
    let a = magnitude(c);
    let b = magnitude(num);
    assert((a * b) / den <= a) by (nonlinear_arith)
        requires
            0 <= b <= den,
            0 <= a,
            den > 0,
    ;
}

/// Scaling by a positive ratio keeps the sign.
pub proof fn lemma_scaled_keeps_sign(d: int, num: int, den: int)
    requires
        0 < num,
        0 < den,
    ensures
        scale(d, num, den) * d >= 0,
        d >= 0 ==> scale(d, num, den) >= 0,
        d <= 0 ==> scale(d, num, den) <= 0,
{
    lemma_scale_magnitude(d, num, den);
    assert(d * num >= 0 <==> d >= 0) by (nonlinear_arith)
        requires
            0 < num,
    ;
    assert(d * num <= 0 <==> d <= 0) by (nonlinear_arith)
        requires
            0 < num,
    ;
    let r = scale(d, num, den);
    assert(r * d >= 0) by (nonlinear_arith)
        requires
            (r >= 0 && d >= 0) || (r <= 0 && d <= 0),
    ;
}

/// Scaling a value to the length `num`, where the value is `den` long or
/// nothing, gives `num` exactly, with the sign of the value, or nothing.
pub proof fn lemma_scale_on_axis(d: int, depth: int, gap: int)
    requires
        0 < gap,
        0 < depth,
        d == 0 || magnitude(d) == gap,
    ensures
        d == 0 ==> scale(d, depth, gap) == 0,
        d > 0 ==> scale(d, depth, gap) == depth,
        d < 0 ==> scale(d, depth, gap) == -depth,
{
    lemma_scale_magnitude(d, depth, gap);
    lemma_scaled_keeps_sign(d, depth, gap);
    assert((gap * depth) / gap == depth) by (nonlinear_arith)
        requires
            0 < gap,
            0 <= depth,
    ;
    assert(0 * depth == 0) by (nonlinear_arith);
    assert(0int / gap == 0) by (nonlinear_arith)
        requires
            0 < gap,
    ;
}

/// Brings a wide integer into the coordinate range.
pub(crate) fn saturate_i64(v: i64) -> (r: i32)
    ensures
        r as int == saturate(v as int),
{
    if v < i32::MIN as i64 {
        i32::MIN
    } else if v > i32::MAX as i64 {
        i32::MAX
    } else {
        v as i32
    }
}

/// Computes `c * num / den` rounded toward zero, through a wider product.
pub(crate) fn scale_i64(c: i64, num: i64, den: i64) -> (r: i64)
    requires
        den > 0,
        i64::MIN <= scale(c as int, num as int, den as int) <= i64::MAX,
    ensures
        r as int == scale(c as int, num as int, den as int),
{
    assert(-0x4000_0000_0000_0000_0000_0000_0000_0000 <= c * num
        <= 0x4000_0000_0000_0000_0000_0000_0000_0000) by (nonlinear_arith)
        requires
            -0x8000_0000_0000_0000 <= c <= 0x8000_0000_0000_0000,
            -0x8000_0000_0000_0000 <= num <= 0x8000_0000_0000_0000,
    ;
    let product: i128 = (c as i128) * (num as i128);
    let quotient: i128 = product / (den as i128);
    quotient as i64
}

/// Computes the rounded-down square root by bisection.
pub(crate) fn floor_sqrt_u128(n: u128) -> (r: u64)
    requires
        n < SQUARE_LIMIT,
    ensures
        r as int == floor_sqrt(n as int),
        is_floor_sqrt(r as int, n as int),
        r < 0x2_0000_0000,
{
    let mut lo: u64 = 0;
    let mut hi: u64 = 0x2_0000_0000;
    assert(0x2_0000_0000int * 0x2_0000_0000int == 0x4_0000_0000_0000_0000int);
    while hi - lo > 1
        invariant
            lo < hi <= 0x2_0000_0000,
            lo * lo <= n < hi * hi,
        decreases hi - lo,
    {
        let mid: u64 = lo + (hi - lo) / 2;
        proof {
            lemma_square_monotone(mid as int, 0x2_0000_0000);
        }
        let sq: u128 = (mid as u128) * (mid as u128);
        if sq <= n {
            lo = mid;
        } else {
            hi = mid;
        }
    }
    proof {
        lemma_floor_sqrt_is(lo as int, n as int);
    }
    lo
}

} // verus!
