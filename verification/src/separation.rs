//! How far apart two overlapping bodies are once their overlap is resolved.

use vstd::prelude::*;
use crate::arith::{
    is_floor_sqrt, lemma_floor_sqrt_at_least, lemma_floor_sqrt_exists, lemma_floor_sqrt_is,
    lemma_scale_magnitude, lemma_scale_on_axis, lemma_scale_within_num, lemma_scaled_keeps_sign,
    lemma_square_monotone, lemma_square_of_product, lemma_square_strictly_monotone, magnitude,
    scale,
};
use crate::collision::{lemma_dist_sq_nonnegative, overlap_push, separated};
use crate::vector::{lemma_component_within_length, Vec2};

verus! {

/// `p` is at least `margin` away from every edge of the coordinate range, so
/// that a move by up to `margin` is not cut short.
pub open spec fn clear_of_edges(p: Vec2, margin: int) -> bool {
    &&& i32::MIN + margin <= p.x <= i32::MAX - margin
    &&& i32::MIN + margin <= p.y <= i32::MAX - margin
}

/// Neither component of the push is longer than the depth of the overlap,
/// and the push points from `a` to `b`.
pub proof fn lemma_push_within_depth(a: Vec2, b: Vec2, min_distance: int)
    requires
        0 < a.dist(b) < min_distance,
    ensures
        magnitude(overlap_push(a, b, min_distance).0) <= min_distance - a.dist(b),
        magnitude(overlap_push(a, b, min_distance).1) <= min_distance - a.dist(b),
        overlap_push(a, b, min_distance).0 * (b.x - a.x) >= 0,
        overlap_push(a, b, min_distance).1 * (b.y - a.y) >= 0,
{
    let len = a.dist(b);
    let depth = min_distance - len;
    lemma_dist_sq_nonnegative(a, b);
    lemma_floor_sqrt_exists(a.dist_sq(b));
    lemma_component_within_length(b.x - a.x, b.y - a.y, len);
    lemma_scale_within_num(b.x - a.x, depth, len);
    lemma_scale_within_num(b.y - a.y, depth, len);
    lemma_scaled_keeps_sign(b.x - a.x, depth, len);
    lemma_scaled_keeps_sign(b.y - a.y, depth, len);
}

/// The displacement between the two centres after the overlap is resolved is
/// the old one plus the push, whichever body moved, as long as neither was
/// stopped at the edge of the coordinate range.
pub proof fn lemma_separated_displacement(a: Vec2, b: Vec2, min_distance: int, a_pinned: bool)
    requires
        0 < a.dist(b) < min_distance,
        clear_of_edges(a, min_distance),
        clear_of_edges(b, min_distance),
    ensures
        separated(a, b, min_distance, a_pinned).1.x - separated(a, b, min_distance, a_pinned).0.x
            == (b.x - a.x) + overlap_push(a, b, min_distance).0,
        separated(a, b, min_distance, a_pinned).1.y - separated(a, b, min_distance, a_pinned).0.y
            == (b.y - a.y) + overlap_push(a, b, min_distance).1,
        a_pinned ==> separated(a, b, min_distance, a_pinned).0 == a,
        a_pinned ==> separated(a, b, min_distance, a_pinned).1.x - b.x == overlap_push(
            a,
            b,
            min_distance,
        ).0,
        a_pinned ==> separated(a, b, min_distance, a_pinned).1.y - b.y == overlap_push(
            a,
            b,
            min_distance,
        ).1,
{
    lemma_push_within_depth(a, b, min_distance);
}

/// Collision separation, on an axis: two overlapping bodies whose centres
/// share a coordinate are exactly `min_distance` apart afterwards, on the
/// same axis and in the same order. Where the first is pinned it has not
/// moved, and the other has moved by the whole depth of the overlap.
pub proof fn lemma_separation_on_axis(a: Vec2, b: Vec2, min_distance: int, a_pinned: bool)
    requires
        a.x == b.x || a.y == b.y,
        a != b,
        magnitude(b.x - a.x) + magnitude(b.y - a.y) < min_distance,
        clear_of_edges(a, min_distance),
        clear_of_edges(b, min_distance),
    ensures
        ({
            let (na, nb) = separated(a, b, min_distance, a_pinned);
            let gap = magnitude(b.x - a.x) + magnitude(b.y - a.y);
            &&& a.dist(b) == gap
            &&& na.dist(nb) == min_distance
            &&& a.x == b.x ==> na.x == a.x && nb.x == b.x && (nb.y - na.y) * (b.y - a.y) > 0
            &&& a.y == b.y ==> na.y == a.y && nb.y == b.y && (nb.x - na.x) * (b.x - a.x) > 0
            &&& a_pinned ==> na == a && magnitude(nb.x - b.x) + magnitude(nb.y - b.y)
                == min_distance - gap
        }),
{
    let dx = b.x - a.x;
    let dy = b.y - a.y;
    let gap = magnitude(dx) + magnitude(dy);
    assert(a.dist_sq(b) == gap * gap) by (nonlinear_arith)
        requires
            a.dist_sq(b) == dx * dx + dy * dy,
            dx == 0 || dy == 0,
            gap == magnitude(dx) + magnitude(dy),
    ;
    assert(is_floor_sqrt(gap, gap * gap)) by (nonlinear_arith)
        requires
            0 <= gap,
    ;
    lemma_floor_sqrt_is(gap, a.dist_sq(b));
    let depth = min_distance - gap;
    lemma_scale_on_axis(dx, depth, gap);
    lemma_scale_on_axis(dy, depth, gap);
    lemma_separated_displacement(a, b, min_distance, a_pinned);
    let (na, nb) = separated(a, b, min_distance, a_pinned);
    let nx = nb.x - na.x;
    let ny = nb.y - na.y;
    assert(na.dist_sq(nb) == min_distance * min_distance) by (nonlinear_arith)
        requires
            na.dist_sq(nb) == nx * nx + ny * ny,
            (nx == 0 && magnitude(ny) == min_distance) || (ny == 0 && magnitude(nx)
                == min_distance),
    ;
    assert(is_floor_sqrt(min_distance, min_distance * min_distance)) by (nonlinear_arith)
        requires
            0 <= min_distance,
    ;
    lemma_floor_sqrt_is(min_distance, na.dist_sq(nb));
    assert(nx * dx > 0 || nx == 0) by (nonlinear_arith)
        requires
            (nx > 0 && dx > 0) || (nx < 0 && dx < 0) || nx == 0,
    ;
    assert(ny * dy > 0 || ny == 0) by (nonlinear_arith)
        requires
            (ny > 0 && dy > 0) || (ny < 0 && dy < 0) || ny == 0,
    ;
}

/// One component after the push: it has the length that the exact scaling to
/// `len + depth` would give it, short of less than one unit.
proof fn lemma_component_pushed(d: int, len: int, depth: int)
    requires
        0 < len,
        0 < depth,
        -len <= d <= len,
    ensures
        len * magnitude(d + scale(d, depth, len)) <= magnitude(d) * (len + depth),
        len * magnitude(d + scale(d, depth, len)) >= magnitude(d) * (len + depth) - (len - 1),
        d == 0 ==> d + scale(d, depth, len) == 0,
{
    lemma_scale_magnitude(d, depth, len);
    lemma_scaled_keeps_sign(d, depth, len);
    let a = magnitude(d);
    let q = (a * depth) / len;
    assert(q * len <= a * depth < q * len + len) by (nonlinear_arith)
        requires
            q == (a * depth) / len,
            0 < len,
            0 <= a * depth,
    ;
    assert(0 <= a * depth) by (nonlinear_arith)
        requires
            0 <= a,
            0 < depth,
    ;
    assert(a == 0 ==> a * depth == 0) by (nonlinear_arith);
    assert(0int / len == 0) by (nonlinear_arith)
        requires
            0 < len,
    ;
    let n = magnitude(d + scale(d, depth, len));
    assert(n == a + q);
    assert(len * n == a * len + q * len && a * (len + depth) == a * len + a * depth)
        by (nonlinear_arith)
        requires
            n == a + q,
    ;
}

/// The squared length after the push, from above and from below.
proof fn lemma_pushed_length(a: int, b: int, x: int, y: int, len: int, reach: int)
    requires
        0 <= a <= len,
        0 <= b <= len,
        0 <= x,
        0 <= y,
        0 < len < reach,
        4 <= reach,
        len * len <= a * a + b * b < (len + 1) * (len + 1),
        len * x <= a * reach,
        len * y <= b * reach,
        len * x >= a * reach - (len - 1),
        len * y >= b * reach - (len - 1),
        a == 0 ==> x == 0,
        b == 0 ==> y == 0,
    ensures
        (len * len) * (x * x + y * y) < (reach * (len + 1)) * (reach * (len + 1)),
        (reach - 3) * (reach - 3) <= x * x + y * y,
{
    let s = a * a + b * b;
    let t = x * x + y * y;
    assert(0 <= len * x && 0 <= len * y) by (nonlinear_arith)
        requires
            0 < len,
            0 <= x,
            0 <= y,
    ;
    lemma_square_monotone(len * x, a * reach);
    lemma_square_monotone(len * y, b * reach);
    lemma_square_of_product(len, x);
    lemma_square_of_product(len, y);
    lemma_square_of_product(a, reach);
    lemma_square_of_product(b, reach);
    lemma_square_of_product(reach, len + 1);
    let ll = len * len;
    let rr = reach * reach;
    assert(ll * t == ll * (x * x) + ll * (y * y)) by (nonlinear_arith)
        requires
            t == x * x + y * y,
    ;
    assert(rr * s == (a * a) * rr + (b * b) * rr) by (nonlinear_arith)
        requires
            s == a * a + b * b,
    ;
    assert(rr * s < rr * ((len + 1) * (len + 1))) by (nonlinear_arith)
        requires
            s < (len + 1) * (len + 1),
            rr == reach * reach,
            0 < reach,
    ;
    // From below.
    if a == 0 || b == 0 {
        let c = a + b;
        let z = x + y;
        assert(s == c * c) by (nonlinear_arith)
            requires
                s == a * a + b * b,
                a == 0 || b == 0,
                c == a + b,
        ;
        if c < len {
            lemma_square_strictly_monotone(c, len);
        }
        assert(c == len);
        assert(z == reach) by (nonlinear_arith)
            requires
                len * z <= len * reach,
                len * z >= len * reach - (len - 1),
                0 < len,
        {
        }
        assert(t == z * z) by (nonlinear_arith)
            requires
                t == x * x + y * y,
                x == 0 || y == 0,
                z == x + y,
        ;
        assert((reach - 3) * (reach - 3) <= reach * reach) by (nonlinear_arith)
            requires
                4 <= reach,
        ;
    } else {
        let ar = a * reach;
        let br = b * reach;
        let rl = reach * len;
        let u = ar - len;
        let v = br - len;
        assert(ar >= reach && br >= reach) by (nonlinear_arith)
            requires
                ar == a * reach,
                br == b * reach,
                1 <= a,
                1 <= b,
                0 < reach,
        ;
        lemma_square_monotone(u, len * x);
        lemma_square_monotone(v, len * y);
        assert(u * u == ar * ar - 2 * (ar * len) + ll) by (nonlinear_arith)
            requires
                u == ar - len,
                ll == len * len,
        ;
        assert(v * v == br * br - 2 * (br * len) + ll) by (nonlinear_arith)
            requires
                v == br - len,
                ll == len * len,
        ;
        assert(ar * len == rl * a) by (nonlinear_arith)
            requires
                ar == a * reach,
                rl == reach * len,
        ;
        assert(br * len == rl * b) by (nonlinear_arith)
            requires
                br == b * reach,
                rl == reach * len,
        ;
        assert(rl * a + rl * b <= rl * (2 * len)) by (nonlinear_arith)
            requires
                a + b <= 2 * len,
                0 <= rl,
        ;
        assert(0 <= rl) by (nonlinear_arith)
            requires
                rl == reach * len,
                0 < reach,
                0 < len,
        ;
        assert(rl * (2 * len) == 2 * (reach * ll)) by (nonlinear_arith)
            requires
                ll == len * len,
                rl == reach * len,
        ;
        assert(rr * s >= rr * ll) by (nonlinear_arith)
            requires
                s >= ll,
                rr == reach * reach,
        ;
        assert(ll * t >= rr * ll - 4 * (reach * ll) + 2 * ll);
        assert(rr * ll - 4 * (reach * ll) + 2 * ll == ll * (rr - 4 * reach + 2))
            by (nonlinear_arith);
        assert(0 < ll) by (nonlinear_arith)
            requires
                ll == len * len,
                0 < len,
        ;
        assert(t >= rr - 4 * reach + 2) by (nonlinear_arith)
            requires
                ll * t >= ll * (rr - 4 * reach + 2),
                0 < ll,
        ;
        assert((reach - 3) * (reach - 3) == rr - 6 * reach + 9) by (nonlinear_arith)
            requires
                rr == reach * reach,
        ;
    }
}

/// Collision separation, in general: after the overlap of two bodies is
/// resolved, the rounded-down distance between their centres is short of
/// `min_distance` by no more than three units, and exceeds it by no more
/// than the share `1 / len` of it, where `len` was their distance before.
pub proof fn lemma_separation_distance(a: Vec2, b: Vec2, min_distance: int, a_pinned: bool)
    requires
        0 < a.dist(b) < min_distance,
        clear_of_edges(a, min_distance),
        clear_of_edges(b, min_distance),
    ensures
        ({
            let (na, nb) = separated(a, b, min_distance, a_pinned);
            &&& min_distance - 3 <= na.dist(nb)
            &&& na.dist(nb) * a.dist(b) < min_distance * (a.dist(b) + 1)
        }),
{
    let len = a.dist(b);
    let dx = b.x - a.x;
    let dy = b.y - a.y;
    let depth = min_distance - len;
    let (na, nb) = separated(a, b, min_distance, a_pinned);
    lemma_dist_sq_nonnegative(a, b);
    lemma_floor_sqrt_exists(a.dist_sq(b));
    lemma_dist_sq_nonnegative(na, nb);
    lemma_floor_sqrt_exists(na.dist_sq(nb));
    lemma_component_within_length(dx, dy, len);
    lemma_separated_displacement(a, b, min_distance, a_pinned);
    let nx = nb.x - na.x;
    let ny = nb.y - na.y;
    assert(nx == dx + scale(dx, depth, len));
    assert(ny == dy + scale(dy, depth, len));
    lemma_component_pushed(dx, len, depth);
    lemma_component_pushed(dy, len, depth);
    let (p, q, x, y) = (magnitude(dx), magnitude(dy), magnitude(nx), magnitude(ny));
    assert(p * p == dx * dx && q * q == dy * dy && x * x == nx * nx && y * y == ny * ny)
        by (nonlinear_arith)
        requires
            p == magnitude(dx),
            q == magnitude(dy),
            x == magnitude(nx),
            y == magnitude(ny),
    ;
    let after = na.dist(nb);
    if min_distance >= 4 {
        lemma_pushed_length(p, q, x, y, len, min_distance);
        lemma_floor_sqrt_at_least(min_distance - 3, na.dist_sq(nb));
    }
    if min_distance < 4 {
        // Bodies this small overlap only when on an axis or one unit apart.
        assert(0 <= after);
        lemma_small_reach(p, q, x, y, len, min_distance);
    }
    lemma_square_of_product(after, len);
    lemma_square_of_product(len, after);
    assert((after * after) * (len * len) <= (len * len) * na.dist_sq(nb)) by (nonlinear_arith)
        requires
            after * after <= na.dist_sq(nb),
            0 <= len * len,
    ;
    assert(0 <= len * len) by (nonlinear_arith);
    if after * len >= min_distance * (len + 1) {
        assert(0 <= min_distance * (len + 1)) by (nonlinear_arith)
            requires
                0 < min_distance,
                0 < len,
        ;
        lemma_square_monotone(min_distance * (len + 1), after * len);
    }
}

/// The upper bound of `lemma_pushed_length` for reaches below four units.
proof fn lemma_small_reach(a: int, b: int, x: int, y: int, len: int, reach: int)
    requires
        0 <= a <= len,
        0 <= b <= len,
        0 <= x,
        0 <= y,
        0 < len < reach < 4,
        a * a + b * b < (len + 1) * (len + 1),
        len * x <= a * reach,
        len * y <= b * reach,
    ensures
        (len * len) * (x * x + y * y) < (reach * (len + 1)) * (reach * (len + 1)),
{
    let s = a * a + b * b;
    let t = x * x + y * y;
    assert(0 <= len * x && 0 <= len * y) by (nonlinear_arith)
        requires
            0 < len,
            0 <= x,
            0 <= y,
    ;
    lemma_square_monotone(len * x, a * reach);
    lemma_square_monotone(len * y, b * reach);
    lemma_square_of_product(len, x);
    lemma_square_of_product(len, y);
    lemma_square_of_product(a, reach);
    lemma_square_of_product(b, reach);
    lemma_square_of_product(reach, len + 1);
    let ll = len * len;
    let rr = reach * reach;
    assert(ll * t == ll * (x * x) + ll * (y * y)) by (nonlinear_arith)
        requires
            t == x * x + y * y,
    ;
    assert(rr * s == (a * a) * rr + (b * b) * rr) by (nonlinear_arith)
        requires
            s == a * a + b * b,
    ;
    assert(rr * s < rr * ((len + 1) * (len + 1))) by (nonlinear_arith)
        requires
            s < (len + 1) * (len + 1),
            rr == reach * reach,
            0 < reach,
    ;
}

} // verus!
