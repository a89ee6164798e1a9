use vstd::prelude::*;

verus! {

/// The largest coordinate magnitude that the exact segment test takes.
pub const COORD_LIMIT: i64 = 1073741824i64;

/// A point or vector with integer (fixed-point) coordinates.
#[derive(Clone, Copy, PartialEq, Eq, Structural, Debug)]
pub struct IVec3 {
    pub x: i64,
    pub y: i64,
    pub z: i64,
}

/// A point given exactly as `(x / w, y / w, z / w)`, with `w` never zero.
#[derive(Clone, Copy, PartialEq, Eq, Structural, Debug)]
pub struct RationalPoint {
    pub x: i128,
    pub y: i128,
    pub z: i128,
    pub w: i128,
}

/// An integer vector as a mathematical triple.
pub open spec fn vec_of(v: IVec3) -> (int, int, int) {
    (v.x as int, v.y as int, v.z as int)
}

pub open spec fn minus(u: (int, int, int), v: (int, int, int)) -> (int, int, int) {
    (u.0 - v.0, u.1 - v.1, u.2 - v.2)
}

pub open spec fn cross(u: (int, int, int), v: (int, int, int)) -> (int, int, int) {
    (u.1 * v.2 - u.2 * v.1, u.2 * v.0 - u.0 * v.2, u.0 * v.1 - u.1 * v.0)
}

pub open spec fn dot(u: (int, int, int), v: (int, int, int)) -> int {
    u.0 * v.0 + u.1 * v.1 + u.2 * v.2
}

/// Whether `num / den` lies in `[0, 1]`, for `den` not zero.
pub open spec fn in_unit(num: int, den: int) -> bool {
    if den > 0 {
        0 <= num <= den
    } else {
        den <= num <= 0
    }
}

/// Whether every coordinate is within the limit.
pub open spec fn in_limit(v: IVec3) -> bool {
    -COORD_LIMIT <= v.x <= COORD_LIMIT && -COORD_LIMIT <= v.y <= COORD_LIMIT && -COORD_LIMIT <= v.z
        <= COORD_LIMIT
}

/// Whether the denominator of the crossing counts the segments as parallel: zero, or smaller in
/// magnitude than the tolerance.
pub open spec fn counts_parallel(den: int, parallel_below: int) -> bool {
    den == 0 || (-parallel_below < den && den < parallel_below)
}

/// Where segment `a`–`b` meets segment `c`–`d`, both seen along the normal `n`: none when they are
/// parallel in that view (within the tolerance) or miss each other, else the point
/// `a + t (b - a)` as `(x, y, z, w)`.
pub open spec fn spec_segment_intersect(
    n: IVec3,
    a: IVec3,
    b: IVec3,
    c: IVec3,
    d: IVec3,
    parallel_below: int,
) -> Option<(int, int, int, int)> {
    let r = minus(vec_of(b), vec_of(a));
    let s = minus(vec_of(d), vec_of(c));
    let ca = minus(vec_of(c), vec_of(a));
    let den = dot(cross(r, s), vec_of(n));
    let t = dot(cross(ca, s), vec_of(n));
    let u = dot(cross(ca, r), vec_of(n));
    if counts_parallel(den, parallel_below) {
        None
    } else if in_unit(t, den) && in_unit(u, den) {
        Some((a.x * den + r.0 * t, a.y * den + r.1 * t, a.z * den + r.2 * t, den))
    } else {
        None
    }
}

/// A vector pointing the other way.
pub open spec fn neg3(u: (int, int, int)) -> (int, int, int) {
    (-u.0, -u.1, -u.2)
}

/// The normal pointing the other way.
pub open spec fn negated(n: IVec3) -> IVec3 {
    IVec3 { x: (-n.x) as i64, y: (-n.y) as i64, z: (-n.z) as i64 }
}

/// A crossing with every coordinate and the denominator negated: the same point.
pub open spec fn flip(p: Option<(int, int, int, int)>) -> Option<(int, int, int, int)> {
    match p {
        Some(q) => Some((-q.0, -q.1, -q.2, -q.3)),
        None => None,
    }
}

proof fn lemma_cross_antisymmetric(u: (int, int, int), v: (int, int, int))
    ensures
        cross(v, u) == neg3(cross(u, v)),
{
    assert(v.1 * u.2 - v.2 * u.1 == -(u.1 * v.2 - u.2 * v.1)) by (nonlinear_arith);
    assert(v.2 * u.0 - v.0 * u.2 == -(u.2 * v.0 - u.0 * v.2)) by (nonlinear_arith);
    assert(v.0 * u.1 - v.1 * u.0 == -(u.0 * v.1 - u.1 * v.0)) by (nonlinear_arith);
}

proof fn lemma_cross_neg_left(u: (int, int, int), v: (int, int, int))
    ensures
        cross(neg3(u), v) == neg3(cross(u, v)),
{
    assert((-u.1) * v.2 - (-u.2) * v.1 == -(u.1 * v.2 - u.2 * v.1)) by (nonlinear_arith);
    assert((-u.2) * v.0 - (-u.0) * v.2 == -(u.2 * v.0 - u.0 * v.2)) by (nonlinear_arith);
    assert((-u.0) * v.1 - (-u.1) * v.0 == -(u.0 * v.1 - u.1 * v.0)) by (nonlinear_arith);
}

proof fn lemma_dot_neg(u: (int, int, int), v: (int, int, int))
    ensures
        dot(neg3(u), v) == -dot(u, v),
        dot(u, neg3(v)) == -dot(u, v),
{
    assert((-u.0) * v.0 + (-u.1) * v.1 + (-u.2) * v.2 == -(u.0 * v.0 + u.1 * v.1 + u.2 * v.2)) by (nonlinear_arith);
    assert(u.0 * (-v.0) + u.1 * (-v.1) + u.2 * (-v.2) == -(u.0 * v.0 + u.1 * v.1 + u.2 * v.2)) by (nonlinear_arith);
}

/// Whether two segments meet does not depend on which is named first.
pub proof fn lemma_meeting_is_symmetric(n: IVec3, a: IVec3, b: IVec3, c: IVec3, d: IVec3, parallel_below: int)
    ensures
        spec_segment_intersect(n, a, b, c, d, parallel_below) is Some <==> spec_segment_intersect(
            n,
            c,
            d,
            a,
            b,
            parallel_below,
        ) is Some,
{
    let r = minus(vec_of(b), vec_of(a));
    let s = minus(vec_of(d), vec_of(c));
    let ca = minus(vec_of(c), vec_of(a));
    let ac = minus(vec_of(a), vec_of(c));
    assert(ac == neg3(ca));
    lemma_cross_antisymmetric(r, s);
    lemma_dot_neg(cross(r, s), vec_of(n));
    lemma_cross_neg_left(ca, r);
    lemma_dot_neg(cross(ca, r), vec_of(n));
    lemma_cross_neg_left(ca, s);
    lemma_dot_neg(cross(ca, s), vec_of(n));
}

/// Turning the normal round gives the same crossing, with every coordinate and the denominator
/// negated.
pub proof fn lemma_normal_direction_irrelevant(n: IVec3, a: IVec3, b: IVec3, c: IVec3, d: IVec3, parallel_below: int)
    requires
        in_limit(n),
    ensures
        spec_segment_intersect(negated(n), a, b, c, d, parallel_below) == flip(
            spec_segment_intersect(n, a, b, c, d, parallel_below),
        ),
{
    let r = minus(vec_of(b), vec_of(a));
    let s = minus(vec_of(d), vec_of(c));
    let ca = minus(vec_of(c), vec_of(a));
    assert(vec_of(negated(n)) == neg3(vec_of(n)));
    lemma_dot_neg(cross(r, s), vec_of(n));
    lemma_dot_neg(cross(ca, s), vec_of(n));
    lemma_dot_neg(cross(ca, r), vec_of(n));
    let den = dot(cross(r, s), vec_of(n));
    let t = dot(cross(ca, s), vec_of(n));
    assert(a.x * (-den) + r.0 * (-t) == -(a.x * den + r.0 * t)) by (nonlinear_arith);
    assert(a.y * (-den) + r.1 * (-t) == -(a.y * den + r.1 * t)) by (nonlinear_arith);
    assert(a.z * (-den) + r.2 * (-t) == -(a.z * den + r.2 * t)) by (nonlinear_arith);
}

/// The determinant of three vectors (the signed volume they span).
pub open spec fn det3(x: (int, int, int), y: (int, int, int), z: (int, int, int)) -> int {
    x.0 * (y.1 * z.2 - y.2 * z.1) + x.1 * (y.2 * z.0 - y.0 * z.2) + x.2 * (y.0 * z.1 - y.1 * z.0)
}

/// Whether `k` lies between 0 and `w` inclusive, whatever the sign of `w`.
pub open spec fn between_zero_and(k: int, w: int) -> bool {
    (0 <= k && k <= w) || (w <= k && k <= 0)
}

/// Whether `(q.0, q.1, q.2) / q.3` is the point `p + (p2 - p) * (k / q.3)` of segment `p`–`p2`, with
/// `k / q.3` in `[0, 1]`.
pub open spec fn on_segment_at(q: (int, int, int, int), p: IVec3, p2: IVec3, k: int) -> bool {
    &&& between_zero_and(k, q.3)
    &&& q.0 == p.x * q.3 + (p2.x - p.x) * k
    &&& q.1 == p.y * q.3 + (p2.y - p.y) * k
    &&& q.2 == p.z * q.3 + (p2.z - p.z) * k
}

/// Whether the point of segment `c`–`d` at `k / q.3` (in `[0, 1]`) coincides with `q`, seen along
/// the normal `n`: the difference between them spans no volume with either segment's direction and
/// `n`, so (the two directions and `n` being independent) it points along `n`.
pub open spec fn meets_along_normal(q: (int, int, int, int), c: IVec3, d: IVec3, n: IVec3, a: IVec3, b: IVec3, k: int) -> bool {
    let diff = (
        q.0 - (c.x * q.3 + (d.x - c.x) * k),
        q.1 - (c.y * q.3 + (d.y - c.y) * k),
        q.2 - (c.z * q.3 + (d.z - c.z) * k),
    );
    let r = (b.x - a.x, b.y - a.y, b.z - a.z);
    let s = (d.x - c.x, d.y - c.y, d.z - c.z);
    let nn = (n.x as int, n.y as int, n.z as int);
    &&& between_zero_and(k, q.3)
    &&& det3(diff, s, nn) == 0
    &&& det3(diff, r, nn) == 0
}

proof fn lemma_sub_times(p: int, q: int, z: int)
    ensures
        (p - q) * z == p * z - q * z,
{
    assert((p - q) * z == p * z - q * z) by (nonlinear_arith);
}

proof fn lemma_times_sub(x: int, p: int, q: int)
    ensures
        x * (p - q) == x * p - x * q,
{
    assert(x * (p - q) == x * p - x * q) by (nonlinear_arith);
}

proof fn lemma_assoc(a: int, b: int, c: int)
    ensures
        (a * b) * c == a * (b * c),
{
    assert((a * b) * c == a * (b * c)) by (nonlinear_arith);
}

proof fn lemma_swap_outer(a: int, b: int, c: int)
    ensures
        a * (b * c) == b * (a * c),
{
    assert(a * (b * c) == b * (a * c)) by (nonlinear_arith);
}

proof fn lemma_det3_monomials(x: (int, int, int), y: (int, int, int), z: (int, int, int))
    ensures
        det3(x, y, z) == x.0 * (y.1 * z.2) - x.0 * (y.2 * z.1) + x.1 * (y.2 * z.0) - x.1 * (y.0 * z.2) + x.2 * (y.0
            * z.1) - x.2 * (y.1 * z.0),
{
    lemma_times_sub(x.0, y.1 * z.2, y.2 * z.1);
    lemma_times_sub(x.1, y.2 * z.0, y.0 * z.2);
    lemma_times_sub(x.2, y.0 * z.1, y.1 * z.0);
}

proof fn lemma_dot_cross_is_det(x: (int, int, int), y: (int, int, int), z: (int, int, int))
    ensures
        dot(cross(x, y), z) == det3(x, y, z),
{
    lemma_det3_monomials(x, y, z);
    lemma_sub_times(x.1 * y.2, x.2 * y.1, z.0);
    lemma_sub_times(x.2 * y.0, x.0 * y.2, z.1);
    lemma_sub_times(x.0 * y.1, x.1 * y.0, z.2);
    lemma_assoc(x.1, y.2, z.0);
    lemma_assoc(x.2, y.1, z.0);
    lemma_assoc(x.2, y.0, z.1);
    lemma_assoc(x.0, y.2, z.1);
    lemma_assoc(x.0, y.1, z.2);
    lemma_assoc(x.1, y.0, z.2);
}

proof fn lemma_add_sub_times(p: int, q: int, r: int, m: int)
    ensures
        (p + q - r) * m == p * m + q * m - r * m,
{
    assert((p + q - r) * m == p * m + q * m - r * m) by (nonlinear_arith);
}

proof fn lemma_times_add3(a: int, p: int, q: int, r: int)
    ensures
        a * (p + q + r) == a * p + a * q + a * r,
{
    assert(a * (p + q + r) == a * p + a * q + a * r) by (nonlinear_arith);
}

proof fn lemma_det3_combination(
    x: (int, int, int),
    y: (int, int, int),
    z: (int, int, int),
    s: (int, int, int),
    n: (int, int, int),
    al: int,
    be: int,
    ga: int,
)
    ensures
        det3(
            (al * x.0 + be * y.0 - ga * z.0, al * x.1 + be * y.1 - ga * z.1, al * x.2 + be * y.2 - ga * z.2),
            s,
            n,
        ) == al * det3(x, s, n) + be * det3(y, s, n) - ga * det3(z, s, n),
{
    let m0 = s.1 * n.2 - s.2 * n.1;
    let m1 = s.2 * n.0 - s.0 * n.2;
    let m2 = s.0 * n.1 - s.1 * n.0;
    lemma_add_sub_times(al * x.0, be * y.0, ga * z.0, m0);
    lemma_add_sub_times(al * x.1, be * y.1, ga * z.1, m1);
    lemma_add_sub_times(al * x.2, be * y.2, ga * z.2, m2);
    lemma_assoc(al, x.0, m0);
    lemma_assoc(al, x.1, m1);
    lemma_assoc(al, x.2, m2);
    lemma_assoc(be, y.0, m0);
    lemma_assoc(be, y.1, m1);
    lemma_assoc(be, y.2, m2);
    lemma_assoc(ga, z.0, m0);
    lemma_assoc(ga, z.1, m1);
    lemma_assoc(ga, z.2, m2);
    lemma_times_add3(al, x.0 * m0, x.1 * m1, x.2 * m2);
    lemma_times_add3(be, y.0 * m0, y.1 * m1, y.2 * m2);
    lemma_times_add3(ga, z.0 * m0, z.1 * m1, z.2 * m2);
}

proof fn lemma_det3_swap_first_two(x: (int, int, int), y: (int, int, int), z: (int, int, int))
    ensures
        det3(x, x, z) == 0,
        det3(y, x, z) == -det3(x, y, z),
{
    lemma_det3_antisymmetric(x, y, z);
    lemma_det3_antisymmetric(x, x, z);
}

proof fn lemma_det3_antisymmetric(x: (int, int, int), y: (int, int, int), z: (int, int, int))
    ensures
        det3(y, x, z) == -det3(x, y, z),
{
    lemma_det3_monomials(x, y, z);
    lemma_det3_monomials(y, x, z);
    lemma_swap_outer(y.0, x.1, z.2);
    lemma_swap_outer(y.0, x.2, z.1);
    lemma_swap_outer(y.1, x.2, z.0);
    lemma_swap_outer(y.1, x.0, z.2);
    lemma_swap_outer(y.2, x.0, z.1);
    lemma_swap_outer(y.2, x.1, z.0);
}

/// A crossing that is found lies on segment `a`–`b`, at its parameter in `[0, 1]`, and coincides,
/// seen along the normal, with a point of segment `c`–`d` at a parameter in `[0, 1]`; its
/// denominator is the volume spanned by the two directions and the normal, never zero.
pub proof fn lemma_crossing_lies_on_both_segments(n: IVec3, a: IVec3, b: IVec3, c: IVec3, d: IVec3, parallel_below: int)
    ensures
        spec_segment_intersect(n, a, b, c, d, parallel_below) matches Some(q) ==> {
            &&& q.3 != 0
            &&& q.3 == det3(
                (b.x - a.x, b.y - a.y, b.z - a.z),
                (d.x - c.x, d.y - c.y, d.z - c.z),
                (n.x as int, n.y as int, n.z as int),
            )
            &&& exists|t: int| #[trigger] on_segment_at(q, a, b, t)
            &&& exists|u: int| #[trigger] meets_along_normal(q, c, d, n, a, b, u)
        },
{
    if let Some(q) = spec_segment_intersect(n, a, b, c, d, parallel_below) {
        let r = minus(vec_of(b), vec_of(a));
        let s = minus(vec_of(d), vec_of(c));
        let ca = minus(vec_of(c), vec_of(a));
        let ac = minus(vec_of(a), vec_of(c));
        let nn = vec_of(n);
        let w = dot(cross(r, s), nn);
        let t = dot(cross(ca, s), nn);
        let u = dot(cross(ca, r), nn);
        lemma_dot_cross_is_det(r, s, nn);
        lemma_dot_cross_is_det(ca, s, nn);
        lemma_dot_cross_is_det(ca, r, nn);
        assert(on_segment_at(q, a, b, t));
        // The difference between the two points is (a - c) w + r t - s u.
        let diff = (
            q.0 - (c.x * q.3 + (d.x - c.x) * u),
            q.1 - (c.y * q.3 + (d.y - c.y) * u),
            q.2 - (c.z * q.3 + (d.z - c.z) * u),
        );
        assert(q.3 == w);
        assert(diff.0 == w * ac.0 + t * r.0 - u * s.0) by (nonlinear_arith)
            requires
                q.0 == a.x * w + r.0 * t,
                q.3 == w,
                diff.0 == q.0 - (c.x * q.3 + s.0 * u),
                ac.0 == a.x - c.x,
        ;
        assert(diff.1 == w * ac.1 + t * r.1 - u * s.1) by (nonlinear_arith)
            requires
                q.1 == a.y * w + r.1 * t,
                q.3 == w,
                diff.1 == q.1 - (c.y * q.3 + s.1 * u),
                ac.1 == a.y - c.y,
        ;
        assert(diff.2 == w * ac.2 + t * r.2 - u * s.2) by (nonlinear_arith)
            requires
                q.2 == a.z * w + r.2 * t,
                q.3 == w,
                diff.2 == q.2 - (c.z * q.3 + s.2 * u),
                ac.2 == a.z - c.z,
        ;
        // det(a - c, y, n) = -det(c - a, y, n).
        assert(ac == neg3(ca));
        lemma_det3_combination(ca, ca, ca, s, nn, -1, 0, 0);
        lemma_det3_combination(ca, ca, ca, r, nn, -1, 0, 0);
        assert(det3(ac, s, nn) == -t) by {
            assert((-1 * ca.0 + 0 * ca.0 - 0 * ca.0, -1 * ca.1 + 0 * ca.1 - 0 * ca.1, -1 * ca.2 + 0 * ca.2 - 0 * ca.2) == ac);
        }
        assert(det3(ac, r, nn) == -u) by {
            assert((-1 * ca.0 + 0 * ca.0 - 0 * ca.0, -1 * ca.1 + 0 * ca.1 - 0 * ca.1, -1 * ca.2 + 0 * ca.2 - 0 * ca.2) == ac);
        }
        lemma_det3_combination(ac, r, s, s, nn, w, t, u);
        lemma_det3_combination(ac, r, s, r, nn, w, t, u);
        lemma_det3_swap_first_two(s, r, nn);
        lemma_det3_swap_first_two(r, s, nn);
        assert(det3(diff, s, nn) == w * (-t) + t * w - u * 0);
        assert(w * (-t) + t * w == 0) by (nonlinear_arith);
        assert(det3(diff, r, nn) == w * (-u) + t * 0 - u * (-w));
        assert(w * (-u) + t * 0 - u * (-w) == 0) by (nonlinear_arith);
        assert(meets_along_normal(q, c, d, n, a, b, u));
    }
}

proof fn lemma_mul_bound(x: int, y: int, bx: int, by: int)
    by (nonlinear_arith)
    requires
        -bx <= x <= bx,
        -by <= y <= by,
    ensures
        -(bx * by) <= x * y <= bx * by,
{
}

proof fn lemma_cross_bound(u: (int, int, int), v: (int, int, int), bu: int, bv: int)
    requires
        -bu <= u.0 <= bu,
        -bu <= u.1 <= bu,
        -bu <= u.2 <= bu,
        -bv <= v.0 <= bv,
        -bv <= v.1 <= bv,
        -bv <= v.2 <= bv,
    ensures
        -(2 * bu * bv) <= cross(u, v).0 <= 2 * bu * bv,
        -(2 * bu * bv) <= cross(u, v).1 <= 2 * bu * bv,
        -(2 * bu * bv) <= cross(u, v).2 <= 2 * bu * bv,
{
    lemma_mul_bound(u.1, v.2, bu, bv);
    lemma_mul_bound(u.2, v.1, bu, bv);
    lemma_mul_bound(u.2, v.0, bu, bv);
    lemma_mul_bound(u.0, v.2, bu, bv);
    lemma_mul_bound(u.0, v.1, bu, bv);
    lemma_mul_bound(u.1, v.0, bu, bv);
    assert(2 * bu * bv == bu * bv + bu * bv) by (nonlinear_arith);
}

proof fn lemma_dot_bound(u: (int, int, int), v: (int, int, int), bu: int, bv: int)
    requires
        -bu <= u.0 <= bu,
        -bu <= u.1 <= bu,
        -bu <= u.2 <= bu,
        -bv <= v.0 <= bv,
        -bv <= v.1 <= bv,
        -bv <= v.2 <= bv,
    ensures
        -(3 * bu * bv) <= dot(u, v) <= 3 * bu * bv,
{
    lemma_mul_bound(u.0, v.0, bu, bv);
    lemma_mul_bound(u.1, v.1, bu, bv);
    lemma_mul_bound(u.2, v.2, bu, bv);
    assert(3 * bu * bv == bu * bv + bu * bv + bu * bv) by (nonlinear_arith);
}

/// Exact cross product of two small vectors.
fn cross_exact(u: (i128, i128, i128), v: (i128, i128, i128)) -> (r: (i128, i128, i128))
    requires
        -0x8000_0000 <= u.0 <= 0x8000_0000,
        -0x8000_0000 <= u.1 <= 0x8000_0000,
        -0x8000_0000 <= u.2 <= 0x8000_0000,
        -0x8000_0000 <= v.0 <= 0x8000_0000,
        -0x8000_0000 <= v.1 <= 0x8000_0000,
        -0x8000_0000 <= v.2 <= 0x8000_0000,
    ensures
        (r.0 as int, r.1 as int, r.2 as int) == cross(
            (u.0 as int, u.1 as int, u.2 as int),
            (v.0 as int, v.1 as int, v.2 as int),
        ),
{
    proof {
        lemma_mul_bound(u.1 as int, v.2 as int, 0x8000_0000, 0x8000_0000);
        lemma_mul_bound(u.2 as int, v.1 as int, 0x8000_0000, 0x8000_0000);
        lemma_mul_bound(u.2 as int, v.0 as int, 0x8000_0000, 0x8000_0000);
        lemma_mul_bound(u.0 as int, v.2 as int, 0x8000_0000, 0x8000_0000);
        lemma_mul_bound(u.0 as int, v.1 as int, 0x8000_0000, 0x8000_0000);
        lemma_mul_bound(u.1 as int, v.0 as int, 0x8000_0000, 0x8000_0000);
    }
    (u.1 * v.2 - u.2 * v.1, u.2 * v.0 - u.0 * v.2, u.0 * v.1 - u.1 * v.0)
}

/// Exact dot product of a cross product of small vectors with a limited vector.
fn dot_exact(u: (i128, i128, i128), v: (i128, i128, i128)) -> (r: i128)
    requires
        -0x8000_0000_0000_0000 <= u.0 <= 0x8000_0000_0000_0000,
        -0x8000_0000_0000_0000 <= u.1 <= 0x8000_0000_0000_0000,
        -0x8000_0000_0000_0000 <= u.2 <= 0x8000_0000_0000_0000,
        -COORD_LIMIT <= v.0 <= COORD_LIMIT,
        -COORD_LIMIT <= v.1 <= COORD_LIMIT,
        -COORD_LIMIT <= v.2 <= COORD_LIMIT,
    ensures
        r as int == dot((u.0 as int, u.1 as int, u.2 as int), (v.0 as int, v.1 as int, v.2 as int)),
{
    proof {
        lemma_mul_bound(u.0 as int, v.0 as int, 0x8000_0000_0000_0000, COORD_LIMIT as int);
        lemma_mul_bound(u.1 as int, v.1 as int, 0x8000_0000_0000_0000, COORD_LIMIT as int);
        lemma_mul_bound(u.2 as int, v.2 as int, 0x8000_0000_0000_0000, COORD_LIMIT as int);
    }
    u.0 * v.0 + u.1 * v.1 + u.2 * v.2
}

/// Whether `num / den` lies in `[0, 1]`, for `den` not zero.
fn in_unit_exec(num: i128, den: i128) -> (r: bool)
    ensures
        r == in_unit(num as int, den as int),
{
    if den > 0 {
        0 <= num && num <= den
    } else {
        den <= num && num <= 0
    }
}

fn wide(v: IVec3) -> (r: (i128, i128, i128))
    ensures
        (r.0 as int, r.1 as int, r.2 as int) == vec_of(v),
{
    (v.x as i128, v.y as i128, v.z as i128)
}

fn diff(u: IVec3, v: IVec3) -> (r: (i128, i128, i128))
    requires
        in_limit(u),
        in_limit(v),
    ensures
        (r.0 as int, r.1 as int, r.2 as int) == minus(vec_of(u), vec_of(v)),
        -0x8000_0000 <= r.0 <= 0x8000_0000,
        -0x8000_0000 <= r.1 <= 0x8000_0000,
        -0x8000_0000 <= r.2 <= 0x8000_0000,
{
    (u.x as i128 - v.x as i128, u.y as i128 - v.y as i128, u.z as i128 - v.z as i128)
}

/// Where segment `a`–`b` meets segment `c`–`d` on a face with normal `n`, computed exactly on
/// fixed-point coordinates: none when the segments are parallel seen along `n` (their
/// denominator is zero or below `parallel_below` in magnitude), or when either would have to be
/// extended to reach the other.
pub fn segment_intersect(n: IVec3, a: IVec3, b: IVec3, c: IVec3, d: IVec3, parallel_below: i128) -> (r: Option<
    RationalPoint,
>)
    requires
        parallel_below >= 0,
        in_limit(n),
        in_limit(a),
        in_limit(b),
        in_limit(c),
        in_limit(d),
    ensures
        match r {
            None => spec_segment_intersect(n, a, b, c, d, parallel_below as int) is None,
            Some(p) => spec_segment_intersect(n, a, b, c, d, parallel_below as int) == Some(
                (p.x as int, p.y as int, p.z as int, p.w as int),
            ) && p.w != 0,
        },
{
    let rv = diff(b, a);
    let sv = diff(d, c);
    let ca = diff(c, a);
    let nv = wide(n);
    let rs = cross_exact(rv, sv);
    let cs = cross_exact(ca, sv);
    let cr = cross_exact(ca, rv);
    proof {
        let big = 0x8000_0000int;
        lemma_cross_bound(minus(vec_of(b), vec_of(a)), minus(vec_of(d), vec_of(c)), big, big);
        lemma_cross_bound(minus(vec_of(c), vec_of(a)), minus(vec_of(d), vec_of(c)), big, big);
        lemma_cross_bound(minus(vec_of(c), vec_of(a)), minus(vec_of(b), vec_of(a)), big, big);
    }
    let den = dot_exact(rs, nv);
    if den == 0 || (-parallel_below < den && den < parallel_below) {
        return None;
    }
    let t = dot_exact(cs, nv);
    let u = dot_exact(cr, nv);
    if in_unit_exec(t, den) && in_unit_exec(u, den) {
        proof {
            let bc = 0x8000_0000_0000_0000int;
            lemma_dot_bound((rs.0 as int, rs.1 as int, rs.2 as int), vec_of(n), bc, COORD_LIMIT as int);
            lemma_dot_bound((cs.0 as int, cs.1 as int, cs.2 as int), vec_of(n), bc, COORD_LIMIT as int);
            let bd = 3 * bc * COORD_LIMIT;
            lemma_mul_bound(a.x as int, den as int, COORD_LIMIT as int, bd);
            lemma_mul_bound(a.y as int, den as int, COORD_LIMIT as int, bd);
            lemma_mul_bound(a.z as int, den as int, COORD_LIMIT as int, bd);
            lemma_mul_bound(rv.0 as int, t as int, 0x8000_0000, bd);
            lemma_mul_bound(rv.1 as int, t as int, 0x8000_0000, bd);
            lemma_mul_bound(rv.2 as int, t as int, 0x8000_0000, bd);
        }
        let ax = a.x as i128;
        let ay = a.y as i128;
        let az = a.z as i128;
        Some(RationalPoint { x: ax * den + rv.0 * t, y: ay * den + rv.1 * t, z: az * den + rv.2 * t, w: den })
    } else {
        None
    }
}

} // verus!
