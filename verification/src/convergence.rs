//! Why relaxation converges: a sweep over a chain of two particles never
//! takes the segment's length further from the rest length.

use vstd::prelude::*;
use vstd::arithmetic::power::pow;
use crate::arith::{
    between, floor_sqrt, is_floor_sqrt, lemma_floor_sqrt_at_least, lemma_floor_sqrt_exists,
    lemma_floor_sqrt_monotone, lemma_scale_magnitude, lemma_scale_within_c, lemma_square_monotone,
    lemma_square_of_product, lemma_square_strictly_monotone, magnitude, scale,
};
use crate::params::{SEGMENT_LENGTH, SUBSTEPS};
use crate::particle::Particle;
use crate::rope::{correction, relaxed, relaxed_at, relaxed_times, swept};
use crate::separation::clear_of_edges;
use crate::vector::{lemma_component_within_length, Vec2};

verus! {

/// How far the distance from `a` to `b` is from the rest length of a segment.
pub open spec fn length_error(a: Vec2, b: Vec2) -> int {
    magnitude(a.dist(b) - SEGMENT_LENGTH)
}

/// One component under the correction of a segment that is too long: it keeps
/// its sign, gets no longer, and gets no shorter than the correction asks.
proof fn lemma_component_shrinks(d: int, n: int, len: int, error: int)
    requires
        0 < len,
        0 <= error <= len,
        -len <= d <= len,
        between(n, d, d - scale(d, error, 10 * len)),
    ensures
        magnitude(n) <= magnitude(d),
        10 * len * magnitude(n) >= magnitude(d) * (10 * len - error),
{
    lemma_scale_magnitude(d, error, 10 * len);
    lemma_scale_within_c(d, error, 10 * len);
    let a = magnitude(d);
    let q = (a * error) / (10 * len);
    assert(q * (10 * len) <= a * error) by (nonlinear_arith)
        requires
            q == (a * error) / (10 * len),
            0 < len,
            0 <= a * error,
    ;
    assert(0 <= a * error) by (nonlinear_arith)
        requires
            0 <= a,
            0 <= error,
    ;
    assert(d * error >= 0 <==> (d >= 0 || error == 0)) by (nonlinear_arith)
        requires
            error >= 0,
    ;
    assert(d * error <= 0 <==> (d <= 0 || error == 0)) by (nonlinear_arith)
        requires
            error >= 0,
    ;
    assert(error == 0 ==> a * error == 0) by (nonlinear_arith);
    assert(0int / (10 * len) == 0) by (nonlinear_arith)
        requires
            0 < len,
    ;
    assert(magnitude(n) >= a - q);
    assert(10 * len * magnitude(n) >= a * (10 * len - error)) by (nonlinear_arith)
        requires
            magnitude(n) >= a - q,
            q * (10 * len) <= a * error,
            0 < len,
    ;
}

/// One component under the correction of a segment that is too short: it keeps
/// its sign, gets no shorter, and gets no longer than the correction asks.
proof fn lemma_component_grows(d: int, n: int, len: int, error: int)
    requires
        0 < len,
        error < 0,
        -len <= d <= len,
        between(n, d, d - scale(d, error, 10 * len)),
    ensures
        magnitude(n) >= magnitude(d),
        10 * len * magnitude(n) <= magnitude(d) * (10 * len - error),
{
    lemma_scale_magnitude(d, error, 10 * len);
    let a = magnitude(d);
    let f = -error;
    let q = (a * f) / (10 * len);
    assert(q * (10 * len) <= a * f) by (nonlinear_arith)
        requires
            q == (a * f) / (10 * len),
            0 < len,
            0 <= a * f,
    ;
    assert(0 <= a * f) by (nonlinear_arith)
        requires
            0 <= a,
            0 <= f,
    ;
    assert(0 <= q) by (nonlinear_arith)
        requires
            q == (a * f) / (10 * len),
            0 < len,
            0 <= a * f,
    ;
    assert(d * error >= 0 <==> d <= 0) by (nonlinear_arith)
        requires
            error < 0,
    ;
    assert(d * error <= 0 <==> d >= 0) by (nonlinear_arith)
        requires
            error < 0,
    ;
    assert(magnitude(n) <= a + q);
    assert(10 * len * magnitude(n) <= a * (10 * len - error)) by (nonlinear_arith)
        requires
            0 <= magnitude(n) <= a + q,
            q * (10 * len) <= a * f,
            f == -error,
            0 < len,
    ;
}

/// Squares of the two sides of the component bounds, summed over both
/// components and brought to a common form.
proof fn lemma_scaled_squares(len: int, x: int, y: int, k: int, a: int, b: int)
    ensures
        (10 * len * x) * (10 * len * x) + (10 * len * y) * (10 * len * y) == (len * len) * (100 * (
            x * x + y * y)),
        (a * k) * (a * k) + (b * k) * (b * k) == (k * k) * (a * a + b * b),
{
    assert((10 * len * x) * (10 * len * x) == (len * len) * (100 * (x * x))) by (nonlinear_arith);
    assert((10 * len * y) * (10 * len * y) == (len * len) * (100 * (y * y))) by (nonlinear_arith);
    assert((len * len) * (100 * (x * x)) + (len * len) * (100 * (y * y)) == (len * len) * (100 * (
        x * x + y * y))) by (nonlinear_arith);
    assert((a * k) * (a * k) == (k * k) * (a * a)) by (nonlinear_arith);
    assert((b * k) * (b * k) == (k * k) * (b * b)) by (nonlinear_arith);
    assert((k * k) * (a * a) + (k * k) * (b * b) == (k * k) * (a * a + b * b))
        by (nonlinear_arith);
}

/// A displacement whose components shrank by no more than the factor
/// `k / (10 * len)` is still at least `rest` long, when the old one was `len`
/// long and `k` is at least ten times `rest`.
proof fn lemma_shrunk_length(a: int, b: int, x: int, y: int, len: int, k: int, rest: int)
    requires
        0 <= a,
        0 <= b,
        0 <= x,
        0 <= y,
        0 < len,
        0 <= rest,
        10 * rest <= k,
        len * len <= a * a + b * b,
        10 * len * x >= a * k,
        10 * len * y >= b * k,
    ensures
        rest * rest <= x * x + y * y,
{
    let s = x * x + y * y;
    assert(a * k >= 0 && b * k >= 0) by (nonlinear_arith)
        requires
            0 <= a,
            0 <= b,
            0 <= k,
    ;
    lemma_square_monotone(a * k, 10 * len * x);
    lemma_square_monotone(b * k, 10 * len * y);
    lemma_scaled_squares(len, x, y, k, a, b);
    assert((k * k) * (a * a + b * b) >= (k * k) * (len * len)) by (nonlinear_arith)
        requires
            len * len <= a * a + b * b,
    ;
    assert((k * k) * (len * len) == (len * len) * (k * k)) by (nonlinear_arith);
    assert(100 * s >= k * k) by (nonlinear_arith)
        requires
            (len * len) * (100 * s) >= (len * len) * (k * k),
            0 < len,
    ;
    assert(k * k >= 100 * (rest * rest)) by (nonlinear_arith)
        requires
            0 <= 10 * rest <= k,
    ;
}

/// A displacement whose components grew by no more than the factor
/// `k / (10 * len)` is still shorter than `rest + 1`, when the old one was
/// shorter than `len + 1` and `k` is nine times `len` plus `rest`.
proof fn lemma_grown_length(a: int, b: int, x: int, y: int, len: int, k: int, rest: int)
    requires
        0 <= a,
        0 <= b,
        0 <= x,
        0 <= y,
        0 < len < rest,
        k == 9 * len + rest,
        a * a + b * b < (len + 1) * (len + 1),
        10 * len * x <= a * k,
        10 * len * y <= b * k,
    ensures
        x * x + y * y < (rest + 1) * (rest + 1),
{
    let s = x * x + y * y;
    assert(0 <= 10 * len * x && 0 <= 10 * len * y) by (nonlinear_arith)
        requires
            0 < len,
            0 <= x,
            0 <= y,
    ;
    lemma_square_monotone(10 * len * x, a * k);
    lemma_square_monotone(10 * len * y, b * k);
    lemma_scaled_squares(len, x, y, k, a, b);
    let top = k * (len + 1);
    let cap = 10 * len * (rest + 1);
    assert(0 <= top <= cap) by (nonlinear_arith)
        requires
            top == k * (len + 1),
            cap == 10 * len * (rest + 1),
            k == 9 * len + rest,
            0 < len < rest,
    ;
    lemma_square_monotone(top, cap);
    assert((k * k) * (a * a + b * b) < top * top) by (nonlinear_arith)
        requires
            a * a + b * b < (len + 1) * (len + 1),
            top == k * (len + 1),
            k > 0,
    ;
    assert(cap * cap == (len * len) * (100 * ((rest + 1) * (rest + 1)))) by (nonlinear_arith)
        requires
            cap == 10 * len * (rest + 1),
    ;
    assert(s < (rest + 1) * (rest + 1)) by (nonlinear_arith)
        requires
            (len * len) * (100 * s) < (len * len) * (100 * ((rest + 1) * (rest + 1))),
            0 < len,
    ;
}

/// The heart of the matter, on plain numbers: a displacement `(dx, dy)` of
/// length `len`, corrected towards the rest length in each component (or
/// stopped on the way there), ends no further from the rest length.
pub proof fn lemma_corrected_length(dx: int, dy: int, nx: int, ny: int, len: int)
    requires
        is_floor_sqrt(len, dx * dx + dy * dy),
        0 < len,
        between(nx, dx, dx - scale(dx, len - SEGMENT_LENGTH, 10 * len)),
        between(ny, dy, dy - scale(dy, len - SEGMENT_LENGTH, 10 * len)),
    ensures
        magnitude(floor_sqrt(nx * nx + ny * ny) - SEGMENT_LENGTH) <= magnitude(
            len - SEGMENT_LENGTH,
        ),
        0 < floor_sqrt(nx * nx + ny * ny),
{
    let rest = SEGMENT_LENGTH as int;
    let error = len - rest;
    let (a, b, x, y) = (magnitude(dx), magnitude(dy), magnitude(nx), magnitude(ny));
    let s = dx * dx + dy * dy;
    let t = nx * nx + ny * ny;
    lemma_component_within_length(dx, dy, len);
    assert(a * a == dx * dx && b * b == dy * dy && x * x == nx * nx && y * y == ny * ny)
        by (nonlinear_arith)
        requires
            a == magnitude(dx),
            b == magnitude(dy),
            x == magnitude(nx),
            y == magnitude(ny),
    ;
    assert(0 <= t) by (nonlinear_arith)
        requires
            t == nx * nx + ny * ny,
    ;
    lemma_floor_sqrt_exists(t);
    crate::arith::lemma_floor_sqrt_is(len, s);
    if error >= 0 {
        lemma_component_shrinks(dx, nx, len, error);
        lemma_component_shrinks(dy, ny, len, error);
        lemma_shrunk_length(a, b, x, y, len, 10 * len - error, rest);
        lemma_square_monotone(x, a);
        lemma_square_monotone(y, b);
        lemma_floor_sqrt_monotone(t, s);
        lemma_floor_sqrt_at_least(rest, t);
    } else {
        lemma_component_grows(dx, nx, len, error);
        lemma_component_grows(dy, ny, len, error);
        lemma_grown_length(a, b, x, y, len, 10 * len - error, rest);
        lemma_square_monotone(a, x);
        lemma_square_monotone(b, y);
        lemma_floor_sqrt_monotone(s, t);
        lemma_floor_sqrt_at_least(rest + 1, t);
    }
}

/// Constraint convergence, one sweep: on a chain of two particles a sweep
/// leaves the head where it is and the segment's length no further from the
/// rest length than it was.
pub proof fn lemma_relax_never_increases_error(s: Seq<Particle>)
    requires
        s.len() == 2,
    ensures
        relaxed(s).len() == 2,
        relaxed(s)[0] == s[0],
        length_error(relaxed(s)[0].position, relaxed(s)[1].position) <= length_error(
            s[0].position,
            s[1].position,
        ),
        0 < s[0].position.dist(s[1].position) ==> 0 < relaxed(s)[0].position.dist(
            relaxed(s)[1].position,
        ),
{
    reveal_with_fuel(swept, 2);
    let a = s[0].position;
    let b = s[1].position;
    let len = a.dist(b);
    assert(relaxed(s) == relaxed_at(s, 0));
    let c = correction(a, b);
    let nb = relaxed(s)[1].position;
    assert(nb == b.moved(-c.0, -c.1));
    assert(0 <= a.dist_sq(b)) by (nonlinear_arith)
        requires
            a.dist_sq(b) == (b.x - a.x) * (b.x - a.x) + (b.y - a.y) * (b.y - a.y),
    ;
    lemma_floor_sqrt_exists(a.dist_sq(b));
    if len > 0 {
        assert(2 * SUBSTEPS * len == 10 * len) by (nonlinear_arith)
            requires
                SUBSTEPS == 5,
        ;
        lemma_corrected_length(b.x - a.x, b.y - a.y, nb.x - a.x, nb.y - a.y, len);
    }
}

/// Constraint convergence, any number of sweeps: on a chain of two particles
/// the segment's length error after `k + 1` sweeps is at most that after `k`.
pub proof fn lemma_error_non_increasing(s: Seq<Particle>, k: nat)
    requires
        s.len() == 2,
    ensures
        relaxed_times(s, k).len() == 2,
        relaxed_times(s, k + 1)[0] == s[0],
        relaxed_times(s, k)[0] == s[0],
        length_error(relaxed_times(s, k + 1)[0].position, relaxed_times(s, k + 1)[1].position)
            <= length_error(relaxed_times(s, k)[0].position, relaxed_times(s, k)[1].position)
            <= length_error(s[0].position, s[1].position),
        0 < s[0].position.dist(s[1].position) ==> 0 < relaxed_times(s, k)[0].position.dist(
            relaxed_times(s, k)[1].position,
        ),
    decreases k,
{
    reveal_with_fuel(relaxed_times, 2);
    crate::rope::lemma_relaxed_times_keeps(s, k);
    if k > 0 {
        lemma_error_non_increasing(s, (k - 1) as nat);
        lemma_relax_never_increases_error(relaxed_times(s, (k - 1) as nat));
    }
    lemma_relax_never_increases_error(relaxed_times(s, k));
}

/// The rounding slack of one sweep: a sweep takes a tenth off the length
/// error, short of less than a tenth of this many units.
pub const SWEEP_SLACK: i32 = 40;

/// One component after the full correction: it has the length that the exact
/// scaling by `(10 * len - error) / (10 * len)` would give it, to within one
/// unit either way.
proof fn lemma_component_corrected(d: int, len: int, error: int)
    requires
        0 < len,
        error <= len,
        -len <= d <= len,
    ensures
        10 * len * magnitude(d - scale(d, error, 10 * len)) < magnitude(d) * (10 * len - error) + 10
            * len,
        10 * len * magnitude(d - scale(d, error, 10 * len)) > magnitude(d) * (10 * len - error) - 10
            * len,
        d == 0 ==> d - scale(d, error, 10 * len) == 0,
{
    lemma_scale_magnitude(d, error, 10 * len);
    let a = magnitude(d);
    let f = magnitude(error);
    let q = (a * f) / (10 * len);
    let n = magnitude(d - scale(d, error, 10 * len));
    assert(0 <= a * f) by (nonlinear_arith)
        requires
            0 <= a,
            0 <= f,
    ;
    assert(q * (10 * len) <= a * f < q * (10 * len) + 10 * len) by (nonlinear_arith)
        requires
            q == (a * f) / (10 * len),
            0 < len,
            0 <= a * f,
    ;
    assert(a == 0 ==> a * f == 0) by (nonlinear_arith);
    assert(0int / (10 * len) == 0) by (nonlinear_arith)
        requires
            0 < len,
    ;
    assert(d * error >= 0 <==> (d >= 0 && error >= 0) || (d <= 0 && error <= 0))
        by (nonlinear_arith);
    assert(d * error <= 0 <==> (d >= 0 && error <= 0) || (d <= 0 && error >= 0))
        by (nonlinear_arith);
    if error >= 0 {
        lemma_scale_within_c(d, error, 10 * len);
        assert(n == a - q);
        assert(10 * len * n == a * (10 * len) - q * (10 * len) && a * (10 * len - error) == a * (10
            * len) - a * f) by (nonlinear_arith)
            requires
                n == a - q,
                f == error,
        ;
    } else {
        assert(n == a + q);
        assert(10 * len * n == a * (10 * len) + q * (10 * len) && a * (10 * len - error) == a * (10
            * len) + a * f) by (nonlinear_arith)
            requires
                n == a + q,
                f == -error,
        ;
    }
}

/// The squares of the component bounds of `lemma_component_corrected`, summed
/// over both components and expanded. `w` is ten times the old length.
proof fn lemma_expanded_bounds(a: int, b: int, k: int, w: int)
    ensures
        (a * k + w) * (a * k + w) + (b * k + w) * (b * k + w) == (k * k) * (a * a + b * b) + 2 * ((w
            * k) * (a + b)) + 2 * (w * w),
        (a * k - w) * (a * k - w) + (b * k - w) * (b * k - w) == (k * k) * (a * a + b * b) - 2 * ((w
            * k) * (a + b)) + 2 * (w * w),
{
    let ak = a * k;
    let bk = b * k;
    lemma_square_of_product(a, k);
    lemma_square_of_product(b, k);
    assert((ak + w) * (ak + w) == ak * ak + 2 * (w * ak) + w * w) by (nonlinear_arith);
    assert((bk + w) * (bk + w) == bk * bk + 2 * (w * bk) + w * w) by (nonlinear_arith);
    assert((ak - w) * (ak - w) == ak * ak - 2 * (w * ak) + w * w) by (nonlinear_arith);
    assert((bk - w) * (bk - w) == bk * bk - 2 * (w * bk) + w * w) by (nonlinear_arith);
    assert(w * ak == (w * k) * a) by (nonlinear_arith)
        requires
            ak == a * k,
    ;
    assert(w * bk == (w * k) * b) by (nonlinear_arith)
        requires
            bk == b * k,
    ;
    assert((w * k) * a + (w * k) * b == (w * k) * (a + b)) by (nonlinear_arith);
    assert((a * a) * (k * k) + (b * b) * (k * k) == (k * k) * (a * a + b * b))
        by (nonlinear_arith);
}

/// A stretched segment after its correction: its squared length, times a
/// hundred, is below the square of `k + 30`, where `k / 10` is the length
/// that the correction aims at.
proof fn lemma_corrected_from_above(a: int, b: int, x: int, y: int, len: int, k: int)
    requires
        0 <= a <= len,
        0 <= b <= len,
        0 <= x,
        0 <= y,
        0 < len,
        0 < k <= 10 * len,
        a * a + b * b < (len + 1) * (len + 1),
        10 * len * x < a * k + 10 * len,
        10 * len * y < b * k + 10 * len,
    ensures
        100 * (x * x + y * y) < (k + 30) * (k + 30),
{
    let w = 10 * len;
    let s = a * a + b * b;
    let t = x * x + y * y;
    let ll = len * len;
    assert(0 <= w * x && 0 <= w * y && 0 <= a * k && 0 <= b * k) by (nonlinear_arith)
        requires
            0 < w,
            0 <= x,
            0 <= y,
            0 <= a,
            0 <= b,
            0 < k,
    ;
    lemma_square_monotone(w * x, a * k + w);
    lemma_square_monotone(w * y, b * k + w);
    lemma_square_of_product(w, x);
    lemma_square_of_product(w, y);
    lemma_expanded_bounds(a, b, k, w);
    assert(w * w == 100 * ll) by (nonlinear_arith)
        requires
            w == 10 * len,
            ll == len * len,
    ;
    assert((w * w) * (x * x) + (w * w) * (y * y) == (100 * ll) * t) by (nonlinear_arith)
        requires
            w * w == 100 * ll,
            t == x * x + y * y,
    ;
    // Each term of the expansion against a multiple of the squared length.
    assert(s <= ll + 2 * len) by (nonlinear_arith)
        requires
            s < (len + 1) * (len + 1),
            ll == len * len,
    ;
    let kk = k * k;
    assert(kk * s <= kk * ll + 2 * (kk * len)) by (nonlinear_arith)
        requires
            s <= ll + 2 * len,
            kk == k * k,
    ;
    assert(kk * len <= 10 * (ll * k)) by (nonlinear_arith)
        requires
            kk == k * k,
            ll == len * len,
            0 < k <= 10 * len,
            0 < len,
    ;
    assert((w * k) * (a + b) <= 20 * (ll * k)) by (nonlinear_arith)
        requires
            w == 10 * len,
            ll == len * len,
            0 <= a + b <= 2 * len,
            0 < k,
            0 < len,
    ;
    assert((100 * ll) * t <= kk * ll + 60 * (ll * k) + 200 * ll);
    assert(kk * ll + 60 * (ll * k) + 200 * ll == ll * (kk + 60 * k + 200)) by (nonlinear_arith);
    assert((100 * ll) * t == ll * (100 * t)) by (nonlinear_arith);
    assert(0 < ll) by (nonlinear_arith)
        requires
            ll == len * len,
            0 < len,
    ;
    assert(100 * t <= kk + 60 * k + 200) by (nonlinear_arith)
        requires
            ll * (100 * t) <= ll * (kk + 60 * k + 200),
            0 < ll,
    ;
    assert((k + 30) * (k + 30) == kk + 60 * k + 900) by (nonlinear_arith)
        requires
            kk == k * k,
    ;
}

/// A compressed segment after its correction: its squared length, times a
/// hundred, is at least `k * k - 40 * k + 200`, where `k / 10` is the length
/// that the correction aims at.
proof fn lemma_corrected_from_below(a: int, b: int, x: int, y: int, len: int, k: int)
    requires
        1 <= a <= len,
        1 <= b <= len,
        0 <= x,
        0 <= y,
        0 < len,
        10 * len < k,
        len * len <= a * a + b * b,
        10 * len * x > a * k - 10 * len,
        10 * len * y > b * k - 10 * len,
    ensures
        100 * (x * x + y * y) >= k * k - 40 * k + 200,
{
    let w = 10 * len;
    let s = a * a + b * b;
    let t = x * x + y * y;
    let ll = len * len;
    let kk = k * k;
    assert(a * k >= k && b * k >= k) by (nonlinear_arith)
        requires
            1 <= a,
            1 <= b,
            0 < k,
    ;
    lemma_square_monotone(a * k - w, w * x);
    lemma_square_monotone(b * k - w, w * y);
    lemma_square_of_product(w, x);
    lemma_square_of_product(w, y);
    lemma_expanded_bounds(a, b, k, w);
    assert(w * w == 100 * ll) by (nonlinear_arith)
        requires
            w == 10 * len,
            ll == len * len,
    ;
    assert((w * w) * (x * x) + (w * w) * (y * y) == (100 * ll) * t) by (nonlinear_arith)
        requires
            w * w == 100 * ll,
            t == x * x + y * y,
    ;
    assert(kk * s >= kk * ll) by (nonlinear_arith)
        requires
            s >= ll,
            kk == k * k,
    ;
    assert((w * k) * (a + b) <= 20 * (ll * k)) by (nonlinear_arith)
        requires
            w == 10 * len,
            ll == len * len,
            0 <= a + b <= 2 * len,
            0 < k,
            0 < len,
    ;
    assert((100 * ll) * t >= kk * ll - 40 * (ll * k) + 200 * ll);
    assert(kk * ll - 40 * (ll * k) + 200 * ll == ll * (kk - 40 * k + 200)) by (nonlinear_arith);
    assert((100 * ll) * t == ll * (100 * t)) by (nonlinear_arith);
    assert(0 < ll) by (nonlinear_arith)
        requires
            ll == len * len,
            0 < len,
    ;
    assert(100 * t >= kk - 40 * k + 200) by (nonlinear_arith)
        requires
            ll * (100 * t) >= ll * (kk - 40 * k + 200),
            0 < ll,
    ;
}

/// The contraction on plain numbers: a displacement `(dx, dy)` of length
/// `len`, fully corrected towards the rest length, ends with a length error
/// of nine tenths of the old one, plus rounding.
pub proof fn lemma_corrected_length_contracts(dx: int, dy: int, len: int)
    requires
        is_floor_sqrt(len, dx * dx + dy * dy),
        0 < len,
    ensures
        ({
            let nx = dx - scale(dx, len - SEGMENT_LENGTH, 10 * len);
            let ny = dy - scale(dy, len - SEGMENT_LENGTH, 10 * len);
            10 * magnitude(floor_sqrt(nx * nx + ny * ny) - SEGMENT_LENGTH) < 9 * magnitude(
                len - SEGMENT_LENGTH,
            ) + SWEEP_SLACK
        }),
{
    let rest = SEGMENT_LENGTH as int;
    let error = len - rest;
    let k = 10 * len - error;
    let nx = dx - scale(dx, error, 10 * len);
    let ny = dy - scale(dy, error, 10 * len);
    let (a, b, x, y) = (magnitude(dx), magnitude(dy), magnitude(nx), magnitude(ny));
    let s = dx * dx + dy * dy;
    let t = nx * nx + ny * ny;
    lemma_component_within_length(dx, dy, len);
    assert(a * a == dx * dx && b * b == dy * dy && x * x == nx * nx && y * y == ny * ny)
        by (nonlinear_arith)
        requires
            a == magnitude(dx),
            b == magnitude(dy),
            x == magnitude(nx),
            y == magnitude(ny),
    ;
    assert(0 <= t) by (nonlinear_arith)
        requires
            t == nx * nx + ny * ny,
    ;
    lemma_floor_sqrt_exists(t);
    let after = floor_sqrt(t);
    lemma_corrected_length(dx, dy, nx, ny, len);
    lemma_component_corrected(dx, len, error);
    lemma_component_corrected(dy, len, error);
    lemma_square_of_product(10, after);
    lemma_square_of_product(10, after + 1);
    if error >= 0 {
        // The new length is between the rest length and the old one.
        lemma_component_shrinks(dx, nx, len, error);
        lemma_component_shrinks(dy, ny, len, error);
        lemma_shrunk_length(a, b, x, y, len, k, rest);
        lemma_floor_sqrt_at_least(rest, t);
        lemma_corrected_from_above(a, b, x, y, len, k);
        if 10 * after >= k + 30 {
            lemma_square_monotone(k + 30, 10 * after);
        }
    } else {
        // The new length is between the old one and the rest length.
        lemma_component_grows(dx, nx, len, error);
        lemma_component_grows(dy, ny, len, error);
        lemma_grown_length(a, b, x, y, len, k, rest);
        lemma_floor_sqrt_at_least(rest + 1, t);
        assert(after <= rest);
        if a == 0 || b == 0 {
            let c = a + b;
            let z = x + y;
            assert(s == c * c) by (nonlinear_arith)
                requires
                    s == a * a + b * b,
                    a == 0 || b == 0,
                    c == a + b,
            ;
            if c < len {
                lemma_square_strictly_monotone(c, len);
            }
            assert(c == len);
            assert(t == z * z) by (nonlinear_arith)
                requires
                    t == x * x + y * y,
                    x == 0 || y == 0,
                    z == x + y,
            ;
            assert(is_floor_sqrt(z, z * z)) by (nonlinear_arith)
                requires
                    0 <= z,
            ;
            crate::arith::lemma_floor_sqrt_is(z, t);
            assert(10 * z > k - 10) by (nonlinear_arith)
                requires
                    10 * len * z > len * k - 10 * len,
                    0 < len,
            ;
        } else {
            lemma_corrected_from_below(a, b, x, y, len, k);
            if k >= 35 && 10 * (after + 1) <= k - 30 {
                lemma_square_monotone(10 * (after + 1), k - 30);
                assert((k - 30) * (k - 30) == k * k - 60 * k + 900) by (nonlinear_arith);
            }
        }
    }
}

/// Constraint convergence, the rate of one sweep: on a chain of two
/// particles that do not coincide, with the head at least a segment's length
/// away from the edges of the coordinate range, a sweep brings the length
/// error down to nine tenths of what it was, plus rounding of less than four
/// units.
pub proof fn lemma_relax_contracts(s: Seq<Particle>)
    requires
        s.len() == 2,
        0 < s[0].position.dist(s[1].position),
        clear_of_edges(s[0].position, SEGMENT_LENGTH as int),
    ensures
        10 * length_error(relaxed(s)[0].position, relaxed(s)[1].position) < 9 * length_error(
            s[0].position,
            s[1].position,
        ) + SWEEP_SLACK,
{
    reveal_with_fuel(swept, 2);
    let a = s[0].position;
    let b = s[1].position;
    let len = a.dist(b);
    let dx = b.x - a.x;
    let dy = b.y - a.y;
    assert(relaxed(s) == relaxed_at(s, 0));
    let c = correction(a, b);
    let nb = relaxed(s)[1].position;
    assert(nb == b.moved(-c.0, -c.1));
    assert(0 <= a.dist_sq(b)) by (nonlinear_arith)
        requires
            a.dist_sq(b) == (b.x - a.x) * (b.x - a.x) + (b.y - a.y) * (b.y - a.y),
    ;
    lemma_floor_sqrt_exists(a.dist_sq(b));
    if len > 0 {
        assert(2 * SUBSTEPS * len == 10 * len) by (nonlinear_arith)
            requires
                SUBSTEPS == 5,
        ;
        let error = len - SEGMENT_LENGTH;
        lemma_component_within_length(dx, dy, len);
        // The correction does not carry the tail out of the coordinate range.
        if error >= 0 {
            lemma_component_shrinks(dx, dx - c.0, len, error);
            lemma_component_shrinks(dy, dy - c.1, len, error);
            lemma_correction_keeps_side(dx, len, error);
            lemma_correction_keeps_side(dy, len, error);
        } else {
            crate::arith::lemma_scale_within_num(dx, error, 10 * len);
            crate::arith::lemma_scale_within_num(dy, error, 10 * len);
            lemma_component_grows(dx, dx - c.0, len, error);
            lemma_component_grows(dy, dy - c.1, len, error);
            lemma_grown_component_within_rest(dx, dx - c.0, len);
            lemma_grown_component_within_rest(dy, dy - c.1, len);
        }
        assert(nb.x == b.x - c.0 && nb.y == b.y - c.1);
        lemma_corrected_length_contracts(dx, dy, len);
        assert(a.dist_sq(nb) == (dx - c.0) * (dx - c.0) + (dy - c.1) * (dy - c.1));
    }
}

/// A component of a stretched segment stays on its side of zero under the
/// correction.
proof fn lemma_correction_keeps_side(d: int, len: int, error: int)
    requires
        0 < len,
        0 <= error <= len,
        -len <= d <= len,
    ensures
        between(d - scale(d, error, 10 * len), 0, d),
{
    lemma_scale_magnitude(d, error, 10 * len);
    lemma_scale_within_c(d, error, 10 * len);
    assert(d * error >= 0 <==> (d >= 0 || error == 0)) by (nonlinear_arith)
        requires
            error >= 0,
    ;
    assert(d * error <= 0 <==> (d <= 0 || error == 0)) by (nonlinear_arith)
        requires
            error >= 0,
    ;
    assert(error == 0 ==> magnitude(d) * error == 0) by (nonlinear_arith);
    assert(0int / (10 * len) == 0) by (nonlinear_arith)
        requires
            0 < len,
    ;
}

/// A component of a compressed segment does not grow beyond the rest length
/// under the correction.
proof fn lemma_grown_component_within_rest(d: int, n: int, len: int)
    requires
        0 < len < SEGMENT_LENGTH,
        -len <= d <= len,
        10 * len * magnitude(n) <= magnitude(d) * (10 * len - (len - SEGMENT_LENGTH)),
    ensures
        magnitude(n) <= SEGMENT_LENGTH,
{
    let a = magnitude(d);
    let x = magnitude(n);
    let rest = SEGMENT_LENGTH as int;
    assert(a * (9 * len + rest) <= len * (9 * len + rest)) by (nonlinear_arith)
        requires
            0 <= a <= len,
            0 < len,
            0 < rest,
    ;
    assert(len * (9 * len + rest) <= len * (10 * rest)) by (nonlinear_arith)
        requires
            0 < len < rest,
    ;
    assert(x <= rest) by (nonlinear_arith)
        requires
            10 * len * x <= len * (10 * rest),
            0 < len,
    ;
}

/// Constraint convergence, the rate of any number of sweeps: on a chain of
/// two particles that do not coincide, with the head at least a segment's
/// length away from the edges of the coordinate range, what the length error
/// exceeds the rounding slack by shrinks by the factor nine tenths with every
/// sweep.
pub proof fn lemma_error_decays(s: Seq<Particle>, k: nat)
    requires
        s.len() == 2,
        0 < s[0].position.dist(s[1].position),
        clear_of_edges(s[0].position, SEGMENT_LENGTH as int),
    ensures
        (length_error(relaxed_times(s, k)[0].position, relaxed_times(s, k)[1].position)
            - SWEEP_SLACK) * pow(10, k) <= (length_error(s[0].position, s[1].position)
            - SWEEP_SLACK) * pow(9, k),
    decreases k,
{
    reveal_with_fuel(pow, 2);
    reveal_with_fuel(relaxed_times, 2);
    if k > 0 {
        let m = (k - 1) as nat;
        lemma_error_decays(s, m);
        lemma_error_non_increasing(s, m);
        let t = relaxed_times(s, m);
        lemma_relax_contracts(t);
        vstd::arithmetic::power::lemma_pow_positive(10, m);
        vstd::arithmetic::power::lemma_pow_positive(9, m);
        let e0 = length_error(s[0].position, s[1].position) - SWEEP_SLACK;
        let em = length_error(t[0].position, t[1].position) - SWEEP_SLACK;
        let ek = length_error(relaxed(t)[0].position, relaxed(t)[1].position) - SWEEP_SLACK;
        let tens = pow(10, m);
        let nines = pow(9, m);
        assert(ek * (10 * tens) <= e0 * (9 * nines)) by (nonlinear_arith)
            requires
                10 * ek < 9 * em,
                em * tens <= e0 * nines,
                0 < tens,
                0 < nines,
        {
            assert(ek * 10 * tens <= 9 * em * tens);
            assert(9 * (em * tens) <= 9 * (e0 * nines));
        }
    }
}

} // verus!
