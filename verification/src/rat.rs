//! Checked exact rational arithmetic.
//!
//! `Q` is the mathematical model: a fraction of two unbounded integers,
//! compared and combined by cross-multiplication, so it never divides.
//! `Rat` is the executable value: an `i128` fraction with a positive
//! denominator, reduced by gcd after every operation. Operations whose
//! intermediate products could leave the `i128` range return `None`
//! instead of a wrong value.

use vstd::prelude::*;

verus! {

/// A mathematical rational: numerator `n` over denominator `d`.
/// Only meaningful when `q_wf` holds (`d > 0`).
pub struct Q {
    pub n: int,
    pub d: int,
}

pub open spec fn q_wf(q: Q) -> bool {
    q.d > 0
}

/// `a` and `b` denote the same rational value.
pub open spec fn q_eq(a: Q, b: Q) -> bool {
    a.n * b.d == b.n * a.d
}

pub open spec fn q_add(a: Q, b: Q) -> Q {
    Q { n: a.n * b.d + b.n * a.d, d: a.d * b.d }
}

pub open spec fn q_mul(a: Q, b: Q) -> Q {
    Q { n: a.n * b.n, d: a.d * b.d }
}

pub open spec fn q_neg(a: Q) -> Q {
    Q { n: -a.n, d: a.d }
}

pub open spec fn q_sub(a: Q, b: Q) -> Q {
    q_add(a, q_neg(b))
}

pub open spec fn q_recip(a: Q) -> Q {
    Q { n: a.d, d: a.n }
}

/// Division as multiplication by the reciprocal; meaningful for `b.n > 0`.
pub open spec fn q_div(a: Q, b: Q) -> Q {
    q_mul(a, q_recip(b))
}

pub open spec fn q_le(a: Q, b: Q) -> bool {
    a.n * b.d <= b.n * a.d
}

pub open spec fn q_lt(a: Q, b: Q) -> bool {
    a.n * b.d < b.n * a.d
}

pub open spec fn q_min(a: Q, b: Q) -> Q {
    if q_le(a, b) {
        a
    } else {
        b
    }
}

pub open spec fn q_int(n: int) -> Q {
    Q { n: n, d: 1 }
}

/// `d` divides `x` exactly.
pub open spec fn divides(d: int, x: int) -> bool {
    exists|k: int| x == #[trigger] (d * k)
}

/// Within this bound (numerator magnitude and denominator at most `2^62`)
/// every checked operation of `Rat` is total: all intermediate products
/// fit in `i128`, so `None` is impossible.
pub open spec fn q_small(q: Q) -> bool {
    &&& -0x4000_0000_0000_0000 <= q.n <= 0x4000_0000_0000_0000
    &&& 0 < q.d <= 0x4000_0000_0000_0000
}

pub open spec fn q_zero() -> Q {
    q_int(0)
}

// ---------------------------------------------------------------------------
// Lemmas about the mathematical model.
// ---------------------------------------------------------------------------

pub proof fn lemma_mul_pos(x: int, y: int)
    requires
        0 < x,
        0 < y,
    ensures
        0 < x * y,
{
    assert(0 < x * y) by (nonlinear_arith)
        requires
            0 < x,
            0 < y,
    ;
}

pub proof fn lemma_mul_le_cancel(x: int, y: int, z: int)
    requires
        0 < z,
    ensures
        (x * z <= y * z) == (x <= y),
{
    assert((x * z <= y * z) == (x <= y)) by (nonlinear_arith)
        requires
            0 < z,
    ;
}

pub proof fn lemma_mul_eq_cancel(x: int, y: int, z: int)
    requires
        0 < z,
    ensures
        (x * z == y * z) == (x == y),
{
    assert((x * z == y * z) == (x == y)) by (nonlinear_arith)
        requires
            0 < z,
    ;
}

proof fn lemma_distr(x: int, y: int, z: int)
    ensures
        (x + y) * z == x * z + y * z,
{
    assert((x + y) * z == x * z + y * z) by (nonlinear_arith);
}

/// Value equality is transitive on well-formed rationals.
pub proof fn lemma_q_eq_trans(a: Q, b: Q, c: Q)
    requires
        q_wf(a),
        q_wf(b),
        q_wf(c),
        q_eq(a, b),
        q_eq(b, c),
    ensures
        q_eq(a, c),
{
    assert((a.n * c.d) * b.d == (c.n * a.d) * b.d) by (nonlinear_arith)
        requires
            a.n * b.d == b.n * a.d,
            b.n * c.d == c.n * b.d,
    ;
    lemma_mul_eq_cancel(a.n * c.d, c.n * a.d, b.d);
}

/// Order on rational values is transitive.
pub proof fn lemma_q_le_trans(a: Q, b: Q, c: Q)
    requires
        q_wf(a),
        q_wf(b),
        q_wf(c),
        q_le(a, b),
        q_le(b, c),
    ensures
        q_le(a, c),
{
    assert((a.n * c.d) * b.d <= (c.n * a.d) * b.d) by (nonlinear_arith)
        requires
            a.n * b.d <= b.n * a.d,
            b.n * c.d <= c.n * b.d,
            0 < a.d,
            0 < b.d,
            0 < c.d,
    ;
    lemma_mul_le_cancel(a.n * c.d, c.n * a.d, b.d);
}

/// A strict bound followed by a bound stays strict.
pub proof fn lemma_q_lt_le_trans(a: Q, b: Q, c: Q)
    requires
        q_wf(a),
        q_wf(b),
        q_wf(c),
        q_lt(a, b),
        q_le(b, c),
    ensures
        q_lt(a, c),
{
    assert((a.n * c.d) * b.d < (c.n * a.d) * b.d) by (nonlinear_arith)
        requires
            a.n * b.d < b.n * a.d,
            b.n * c.d <= c.n * b.d,
            0 < a.d,
            0 < b.d,
            0 < c.d,
    ;
    assert((a.n * c.d) < (c.n * a.d)) by (nonlinear_arith)
        requires
            (a.n * c.d) * b.d < (c.n * a.d) * b.d,
            0 < b.d,
    ;
}

/// Halving a value between zero and one half keeps it there.
pub proof fn lemma_q_half_step(l: Q)
    requires
        q_wf(l),
        q_lt(q_zero(), l),
        q_le(l, Q { n: 1, d: 2 }),
    ensures
        q_wf(q_mul(l, Q { n: 1, d: 2 })),
        q_lt(q_zero(), q_mul(l, Q { n: 1, d: 2 })),
        q_le(q_mul(l, Q { n: 1, d: 2 }), Q { n: 1, d: 2 }),
{
    assert(0 < l.d * 2) by (nonlinear_arith)
        requires
            0 < l.d,
    ;
    assert((l.n * 1) * 2 <= 1 * (l.d * 2)) by (nonlinear_arith)
        requires
            l.n * 2 <= 1 * l.d,
            0 < l.d,
    ;
}

/// Doubling a value at least one keeps it at least one.
pub proof fn lemma_q_double_step(h: Q)
    requires
        q_wf(h),
        q_le(q_int(1), h),
    ensures
        q_wf(q_mul(h, Q { n: 2, d: 1 })),
        q_le(q_int(1), q_mul(h, Q { n: 2, d: 1 })),
{
    assert(1 * (h.d * 1) <= (h.n * 2) * 1) by (nonlinear_arith)
        requires
            1 * h.d <= h.n * 1,
            0 < h.d,
    ;
}

/// The midpoint `(h + l) / 2` lies between `l` and `h`.
pub proof fn lemma_q_mid(l: Q, h: Q)
    requires
        q_wf(l),
        q_wf(h),
        q_le(l, h),
    ensures
        q_wf(q_mul(q_add(h, l), Q { n: 1, d: 2 })),
        q_le(l, q_mul(q_add(h, l), Q { n: 1, d: 2 })),
        q_le(q_mul(q_add(h, l), Q { n: 1, d: 2 }), h),
{
    assert(0 < (h.d * l.d) * 2) by (nonlinear_arith)
        requires
            0 < h.d,
            0 < l.d,
    ;
    assert(l.n * ((h.d * l.d) * 2) <= ((h.n * l.d + l.n * h.d) * 1) * l.d) by (nonlinear_arith)
        requires
            l.n * h.d <= h.n * l.d,
            0 < l.d,
    ;
    assert(((h.n * l.d + l.n * h.d) * 1) * h.d <= h.n * ((h.d * l.d) * 2)) by (nonlinear_arith)
        requires
            l.n * h.d <= h.n * l.d,
            0 < h.d,
    ;
}

pub proof fn lemma_q_add_wf(a: Q, b: Q)
    requires
        q_wf(a),
        q_wf(b),
    ensures
        q_wf(q_add(a, b)),
        q_wf(q_mul(a, b)),
{
    lemma_mul_pos(a.d, b.d);
}

/// Addition respects value equality in its left operand.
proof fn lemma_q_add_congr_l(a: Q, a2: Q, b: Q)
    requires
        q_wf(a),
        q_wf(a2),
        q_wf(b),
        q_eq(a, a2),
    ensures
        q_eq(q_add(a, b), q_add(a2, b)),
{
    lemma_distr(a.n * b.d, b.n * a.d, a2.d * b.d);
    assert((a.n * b.d) * (a2.d * b.d) == (a.n * a2.d) * (b.d * b.d)) by (nonlinear_arith);
    assert((a.n * a2.d) * (b.d * b.d) == (a2.n * a.d) * (b.d * b.d)) by (nonlinear_arith)
        requires
            a.n * a2.d == a2.n * a.d,
    ;
    assert((b.n * a.d) * (a2.d * b.d) == (b.n * a2.d) * (a.d * b.d)) by (nonlinear_arith);
    lemma_distr(a2.n * b.d, b.n * a2.d, a.d * b.d);
    assert((a2.n * b.d) * (a.d * b.d) == (a2.n * a.d) * (b.d * b.d)) by (nonlinear_arith);
}

/// Addition respects value equality.
pub proof fn lemma_q_add_congr(a: Q, a2: Q, b: Q, b2: Q)
    requires
        q_wf(a),
        q_wf(a2),
        q_wf(b),
        q_wf(b2),
        q_eq(a, a2),
        q_eq(b, b2),
    ensures
        q_eq(q_add(a, b), q_add(a2, b2)),
{
    lemma_q_add_congr_l(a, a2, b);
    lemma_q_add_congr_l(b, b2, a2);
    assert(q_add(b, a2) == q_add(a2, b)) by {
        assert(b.n * a2.d + a2.n * b.d == a2.n * b.d + b.n * a2.d);
        assert(b.d * a2.d == a2.d * b.d) by (nonlinear_arith);
    };
    assert(q_add(b2, a2) == q_add(a2, b2)) by {
        assert(b2.d * a2.d == a2.d * b2.d) by (nonlinear_arith);
    };
    lemma_q_add_wf(a, b);
    lemma_q_add_wf(a2, b);
    lemma_q_add_wf(a2, b2);
    lemma_q_eq_trans(q_add(a, b), q_add(a2, b), q_add(a2, b2));
}

/// Multiplication respects value equality.
pub proof fn lemma_q_mul_congr(a: Q, a2: Q, b: Q, b2: Q)
    requires
        q_wf(a),
        q_wf(a2),
        q_wf(b),
        q_wf(b2),
        q_eq(a, a2),
        q_eq(b, b2),
    ensures
        q_eq(q_mul(a, b), q_mul(a2, b2)),
{
    assert((a.n * b.n) * (a2.d * b2.d) == (a2.n * b2.n) * (a.d * b.d)) by (nonlinear_arith)
        requires
            a.n * a2.d == a2.n * a.d,
            b.n * b2.d == b2.n * b.d,
    ;
}

proof fn lemma_q_le_congr_core(a: Q, a2: Q, b: Q, b2: Q)
    requires
        q_wf(a),
        q_wf(a2),
        q_wf(b),
        q_wf(b2),
        q_eq(a, a2),
        q_eq(b, b2),
    ensures
        q_le(a, b) == q_le(a2, b2),
{
    lemma_mul_pos(a2.d, b2.d);
    lemma_mul_le_cancel(a.n * b.d, b.n * a.d, a2.d * b2.d);
    assert((a.n * b.d) * (a2.d * b2.d) == (a.n * a2.d) * (b.d * b2.d)) by (nonlinear_arith);
    assert((a.n * a2.d) * (b.d * b2.d) == (a2.n * a.d) * (b.d * b2.d)) by (nonlinear_arith)
        requires
            a.n * a2.d == a2.n * a.d,
    ;
    assert((a2.n * a.d) * (b.d * b2.d) == (a2.n * b2.d) * (a.d * b.d)) by (nonlinear_arith);
    assert((b.n * a.d) * (a2.d * b2.d) == (b.n * b2.d) * (a.d * a2.d)) by (nonlinear_arith);
    assert((b.n * b2.d) * (a.d * a2.d) == (b2.n * b.d) * (a.d * a2.d)) by (nonlinear_arith)
        requires
            b.n * b2.d == b2.n * b.d,
    ;
    assert((b2.n * b.d) * (a.d * a2.d) == (b2.n * a2.d) * (a.d * b.d)) by (nonlinear_arith);
    lemma_mul_pos(a.d, b.d);
    lemma_mul_le_cancel(a2.n * b2.d, b2.n * a2.d, a.d * b.d);
}

/// Order respects value equality.
pub proof fn lemma_q_le_congr(a: Q, a2: Q, b: Q, b2: Q)
    requires
        q_wf(a),
        q_wf(a2),
        q_wf(b),
        q_wf(b2),
        q_eq(a, a2),
        q_eq(b, b2),
    ensures
        q_le(a, b) == q_le(a2, b2),
        q_lt(a, b) == q_lt(a2, b2),
{
    lemma_q_le_congr_core(a, a2, b, b2);
    lemma_q_le_congr_core(b, b2, a, a2);
}

/// Adding zero does not change the value.
pub proof fn lemma_q_add_zero(a: Q)
    requires
        q_wf(a),
    ensures
        q_add(a, q_zero()) == a,
        q_add(q_zero(), a) == a,
{
}

/// Addition of rational values is associative.
pub proof fn lemma_q_add_assoc(a: Q, b: Q, c: Q)
    requires
        q_wf(a),
        q_wf(b),
        q_wf(c),
    ensures
        q_eq(q_add(q_add(a, b), c), q_add(a, q_add(b, c))),
{
    lemma_distr(a.n * b.d, b.n * a.d, c.d);
    lemma_distr(b.n * c.d, c.n * b.d, a.d);
    assert((a.n * b.d) * c.d == a.n * (b.d * c.d)) by (nonlinear_arith);
    assert((b.n * a.d) * c.d == (b.n * c.d) * a.d) by (nonlinear_arith);
    assert(c.n * (a.d * b.d) == (c.n * b.d) * a.d) by (nonlinear_arith);
    assert((a.d * b.d) * c.d == a.d * (b.d * c.d)) by (nonlinear_arith);
}

/// Addition of rational values is commutative.
pub proof fn lemma_q_add_comm(a: Q, b: Q)
    requires
        q_wf(a),
        q_wf(b),
    ensures
        q_eq(q_add(a, b), q_add(b, a)),
{
    assert((a.n * b.d + b.n * a.d) * (b.d * a.d) == (b.n * a.d + a.n * b.d) * (a.d * b.d))
        by (nonlinear_arith);
}

/// Multiplication of rational values is commutative (structurally).
pub proof fn lemma_q_mul_comm(a: Q, b: Q)
    ensures
        q_mul(a, b) == q_mul(b, a),
{
    assert(a.n * b.n == b.n * a.n) by (nonlinear_arith);
    assert(a.d * b.d == b.d * a.d) by (nonlinear_arith);
}

/// Multiplication of rational values is associative (structurally).
pub proof fn lemma_q_mul_assoc(a: Q, b: Q, c: Q)
    ensures
        q_mul(q_mul(a, b), c) == q_mul(a, q_mul(b, c)),
{
    assert((a.n * b.n) * c.n == a.n * (b.n * c.n)) by (nonlinear_arith);
    assert((a.d * b.d) * c.d == a.d * (b.d * c.d)) by (nonlinear_arith);
}

/// Multiplication distributes over addition of rational values.
#[verifier::rlimit(50)]
pub proof fn lemma_q_distr_l(s: Q, a: Q, b: Q)
    requires
        q_wf(s),
        q_wf(a),
        q_wf(b),
    ensures
        q_eq(q_mul(s, q_add(a, b)), q_add(q_mul(s, a), q_mul(s, b))),
{
    // numerators: s.n*(a.n*b.d + b.n*a.d) over s.d*(a.d*b.d)
    // versus (s.n*a.n)*(s.d*b.d) + (s.n*b.n)*(s.d*a.d) over (s.d*a.d)*(s.d*b.d)
    lemma_distr(a.n * b.d, b.n * a.d, s.n);
    assert((s.n * (a.n * b.d + b.n * a.d)) * ((s.d * a.d) * (s.d * b.d)) == ((a.n * b.d) * s.n + (
    b.n * a.d) * s.n) * ((s.d * a.d) * (s.d * b.d))) by {
        assert(s.n * (a.n * b.d + b.n * a.d) == (a.n * b.d + b.n * a.d) * s.n) by (nonlinear_arith);
    };
    lemma_distr((a.n * b.d) * s.n, (b.n * a.d) * s.n, (s.d * a.d) * (s.d * b.d));
    assert(((a.n * b.d) * s.n) * ((s.d * a.d) * (s.d * b.d)) == ((s.n * a.n) * (s.d * b.d)) * ((s.d
        * (a.d * b.d)))) by (nonlinear_arith);
    assert(((b.n * a.d) * s.n) * ((s.d * a.d) * (s.d * b.d)) == ((s.n * b.n) * (s.d * a.d)) * ((s.d
        * (a.d * b.d)))) by (nonlinear_arith);
    lemma_distr((s.n * a.n) * (s.d * b.d), (s.n * b.n) * (s.d * a.d), s.d * (a.d * b.d));
}

/// Distribution with the sum on the left.
pub proof fn lemma_q_distr_r(a: Q, b: Q, x: Q)
    requires
        q_wf(a),
        q_wf(b),
        q_wf(x),
    ensures
        q_eq(q_mul(q_add(a, b), x), q_add(q_mul(a, x), q_mul(b, x))),
{
    lemma_q_mul_comm(q_add(a, b), x);
    lemma_q_distr_l(x, a, b);
    lemma_q_mul_comm(x, a);
    lemma_q_mul_comm(x, b);
}

/// A rational equal to zero is absorbed by addition.
pub proof fn lemma_q_add_zero_val(z: Q, w: Q)
    requires
        q_wf(z),
        q_wf(w),
        q_eq(z, q_zero()),
    ensures
        q_eq(q_add(z, w), w),
        q_eq(q_add(w, z), w),
{
    lemma_q_add_congr(z, q_zero(), w, w);
    lemma_q_add_zero(w);
    lemma_q_add_wf(z, w);
    lemma_q_eq_trans(q_add(z, w), q_add(q_zero(), w), w);
    lemma_q_add_congr(w, w, z, q_zero());
    lemma_q_add_wf(w, z);
    lemma_q_eq_trans(q_add(w, z), q_add(w, q_zero()), w);
}

/// Two four-term sums that pair the summands differently are equal.
pub proof fn lemma_q_swap_mid(p: Q, r: Q, u: Q, w: Q)
    requires
        q_wf(p),
        q_wf(r),
        q_wf(u),
        q_wf(w),
    ensures
        q_eq(q_add(q_add(p, r), q_add(u, w)), q_add(q_add(p, u), q_add(r, w))),
{
    lemma_distr(p.n * r.d, r.n * p.d, u.d * w.d);
    lemma_distr(u.n * w.d, w.n * u.d, p.d * r.d);
    lemma_distr(p.n * u.d, u.n * p.d, r.d * w.d);
    lemma_distr(r.n * w.d, w.n * r.d, p.d * u.d);
    assert((p.n * r.d) * (u.d * w.d) == (p.n * u.d) * (r.d * w.d)) by (nonlinear_arith);
    assert((r.n * p.d) * (u.d * w.d) == (r.n * w.d) * (p.d * u.d)) by (nonlinear_arith);
    assert((u.n * w.d) * (p.d * r.d) == (u.n * p.d) * (r.d * w.d)) by (nonlinear_arith);
    assert((w.n * u.d) * (p.d * r.d) == (w.n * r.d) * (p.d * u.d)) by (nonlinear_arith);
    assert((p.d * r.d) * (u.d * w.d) == (p.d * u.d) * (r.d * w.d)) by (nonlinear_arith);
    assert(q_add(q_add(p, r), q_add(u, w)).n == q_add(q_add(p, u), q_add(r, w)).n);
    assert(q_add(q_add(p, r), q_add(u, w)).d == q_add(q_add(p, u), q_add(r, w)).d);
}

/// Multiplying by a non-negative rational preserves order.
pub proof fn lemma_q_mul_mono(a: Q, b: Q, s: Q)
    requires
        q_wf(a),
        q_wf(b),
        q_wf(s),
        q_le(q_zero(), s),
        q_le(a, b),
    ensures
        q_le(q_mul(s, a), q_mul(s, b)),
{
    assert((s.n * a.n) * (s.d * b.d) <= (s.n * b.n) * (s.d * a.d)) by (nonlinear_arith)
        requires
            a.n * b.d <= b.n * a.d,
            0 <= s.n,
            0 < s.d,
    ;
}

/// Values that bound each other from both sides are equal.
pub proof fn lemma_q_le_antisym(a: Q, b: Q)
    requires
        q_le(a, b),
        q_le(b, a),
    ensures
        q_eq(a, b),
{
}

/// Scaling by a non-negative rational commutes with the minimum.
pub proof fn lemma_q_min_scale(s: Q, a: Q, b: Q)
    requires
        q_wf(s),
        q_wf(a),
        q_wf(b),
        q_le(q_zero(), s),
    ensures
        q_eq(q_min(q_mul(s, a), q_mul(s, b)), q_mul(s, q_min(a, b))),
{
    lemma_q_add_wf(s, a);
    lemma_q_add_wf(s, b);
    if q_le(a, b) {
        lemma_q_mul_mono(a, b, s);
    } else {
        lemma_q_mul_mono(b, a, s);
        if q_le(q_mul(s, a), q_mul(s, b)) {
            lemma_q_le_antisym(q_mul(s, a), q_mul(s, b));
        }
    }
}

/// Moving a subtracted bound to the other side keeps the comparison.
pub proof fn lemma_q_sub_le_shift(v: Q, l: Q, t: Q)
    requires
        q_wf(v),
        q_wf(l),
        q_wf(t),
    ensures
        q_le(q_sub(v, l), t) == q_le(v, q_add(l, t)),
{
    lemma_distr(v.n * l.d, -l.n * v.d, t.d);
    lemma_distr(l.n * t.d, t.n * l.d, v.d);
    assert((v.n * l.d) * t.d == v.n * (l.d * t.d)) by (nonlinear_arith);
    assert((-l.n * v.d) * t.d == -((l.n * t.d) * v.d)) by (nonlinear_arith);
    assert(t.n * (v.d * l.d) == (t.n * l.d) * v.d) by (nonlinear_arith);
}

/// Adding the same value on both sides keeps the comparison.
pub proof fn lemma_q_add_mono(a: Q, b: Q, c: Q)
    requires
        q_wf(a),
        q_wf(b),
        q_wf(c),
        q_le(a, b),
    ensures
        q_le(q_add(a, c), q_add(b, c)),
{
    lemma_distr(a.n * c.d, c.n * a.d, b.d * c.d);
    lemma_distr(b.n * c.d, c.n * b.d, a.d * c.d);
    assert((a.n * c.d) * (b.d * c.d) == (a.n * b.d) * (c.d * c.d)) by (nonlinear_arith);
    assert((b.n * c.d) * (a.d * c.d) == (b.n * a.d) * (c.d * c.d)) by (nonlinear_arith);
    assert((c.n * a.d) * (b.d * c.d) == (c.n * b.d) * (a.d * c.d)) by (nonlinear_arith);
    assert((a.n * b.d) * (c.d * c.d) <= (b.n * a.d) * (c.d * c.d)) by (nonlinear_arith)
        requires
            a.n * b.d <= b.n * a.d,
            0 < c.d,
    ;
}

/// Sums and products of non-negative rationals are non-negative.
pub proof fn lemma_q_nonneg(a: Q, b: Q)
    requires
        q_wf(a),
        q_wf(b),
        q_le(q_zero(), a),
        q_le(q_zero(), b),
    ensures
        q_le(q_zero(), q_add(a, b)),
        q_le(q_zero(), q_mul(a, b)),
{
    assert(0 <= a.n);
    assert(0 <= b.n);
    assert(0 * (a.d * b.d) <= (a.n * b.d + b.n * a.d) * 1 && 0 * (a.d * b.d) <= (a.n * b.n) * 1)
        by (nonlinear_arith)
        requires
            0 <= a.n,
            0 <= b.n,
            0 < a.d,
            0 < b.d,
    ;
}

/// Adding a non-negative rational does not decrease a value.
pub proof fn lemma_q_le_self_add(a: Q, b: Q)
    requires
        q_wf(a),
        q_wf(b),
        q_le(q_zero(), b),
    ensures
        q_le(a, q_add(a, b)),
{
    assert(0 <= b.n);
    assert(a.n * (a.d * b.d) <= (a.n * b.d + b.n * a.d) * a.d) by (nonlinear_arith)
        requires
            0 <= b.n,
            0 < a.d,
            0 < b.d,
    ;
}

/// The minimum lies at or below both of its arguments.
pub proof fn lemma_q_min_le(a: Q, b: Q)
    ensures
        q_le(q_min(a, b), a),
        q_le(q_min(a, b), b),
{
}

/// The minimum respects value equality.
pub proof fn lemma_q_min_congr(a: Q, a2: Q, b: Q, b2: Q)
    requires
        q_wf(a),
        q_wf(a2),
        q_wf(b),
        q_wf(b2),
        q_eq(a, a2),
        q_eq(b, b2),
    ensures
        q_eq(q_min(a, b), q_min(a2, b2)),
{
    lemma_q_le_congr(a, a2, b, b2);
}

// ---------------------------------------------------------------------------
// Executable rationals.
// ---------------------------------------------------------------------------

/// An executable rational number. Well-formed values (`wf`) keep the
/// denominator positive and the numerator away from `i128::MIN`, so that
/// negation never overflows.
#[derive(Clone, Copy, Debug)]
pub struct Rat {
    pub n: i128,
    pub d: i128,
}

impl View for Rat {
    type V = Q;

    open spec fn view(&self) -> Q {
        Q { n: self.n as int, d: self.d as int }
    }
}

impl Rat {
    pub open spec fn wf(self) -> bool {
        0 < self.d && i128::MIN < self.n
    }

    /// The rational `n / d`.
    pub fn new(n: i64, d: i64) -> (r: Rat)
        requires
            0 < d,
        ensures
            r.wf(),
            r@ == (Q { n: n as int, d: d as int }),
    {
        Rat { n: n as i128, d: d as i128 }
    }

    /// The rational `n / 1`.
    pub fn from_int(n: i64) -> (r: Rat)
        ensures
            r.wf(),
            r@ == q_int(n as int),
    {
        Rat { n: n as i128, d: 1 }
    }

    /// Exact negation; total because `wf` keeps `i128::MIN` out.
    pub fn neg(self) -> (r: Rat)
        requires
            self.wf(),
        ensures
            r.wf(),
            r@ == q_neg(self@),
    {
        Rat { n: -self.n, d: self.d }
    }

    /// Exact sum, or `None` if an intermediate product does not fit;
    /// total on `q_small` operands.
    pub fn add(self, other: Rat) -> (r: Option<Rat>)
        requires
            self.wf(),
            other.wf(),
        ensures
            r matches Some(v) ==> v.wf() && q_eq(v@, q_add(self@, other@)),
            q_small(self@) && q_small(other@) ==> r is Some,
    {
        match common(self, other) {
            None => None,
            Some((p, q, l)) => match p.checked_add(q) {
                None => None,
                Some(s) => {
                    if s == i128::MIN {
                        None
                    } else {
                        let v = reduce(s, l);
                        proof {
                            lemma_add_common(
                                p as int,
                                q as int,
                                l as int,
                                self@.n,
                                self@.d,
                                other@.n,
                                other@.d,
                            );
                            lemma_q_add_wf(self@, other@);
                            lemma_q_eq_trans(v@, Q { n: s as int, d: l as int }, q_add(self@, other@));
                        }
                        Some(v)
                    }
                },
            },
        }
    }

    /// Exact difference, or `None` if an intermediate product does not
    /// fit; total on `q_small` operands.
    pub fn sub(self, other: Rat) -> (r: Option<Rat>)
        requires
            self.wf(),
            other.wf(),
        ensures
            r matches Some(v) ==> v.wf() && q_eq(v@, q_sub(self@, other@)),
            q_small(self@) && q_small(other@) ==> r is Some,
    {
        let m = other.neg();
        proof {
            if q_small(other@) {
                assert(q_small(m@));
            }
        }
        self.add(m)
    }

    /// Exact product, or `None` if an intermediate product does not fit;
    /// total on `q_small` operands.
    pub fn mul(self, other: Rat) -> (r: Option<Rat>)
        requires
            self.wf(),
            other.wf(),
        ensures
            r matches Some(v) ==> v.wf() && q_eq(v@, q_mul(self@, other@)),
            q_small(self@) && q_small(other@) ==> r is Some,
    {
        proof {
            if q_small(self@) && q_small(other@) {
                assert(-0x1000_0000_0000_0000_0000_0000_0000_0000 <= (self.n as int) * (other.n
                    as int) <= 0x1000_0000_0000_0000_0000_0000_0000_0000) by (nonlinear_arith)
                    requires
                        -0x4000_0000_0000_0000 <= self.n as int <= 0x4000_0000_0000_0000,
                        -0x4000_0000_0000_0000 <= other.n as int <= 0x4000_0000_0000_0000,
                ;
                assert(0 < (self.d as int) * (other.d as int)
                    <= 0x1000_0000_0000_0000_0000_0000_0000_0000) by (nonlinear_arith)
                    requires
                        0 < self.d as int <= 0x4000_0000_0000_0000,
                        0 < other.d as int <= 0x4000_0000_0000_0000,
                ;
            }
        }
        match self.n.checked_mul(other.n) {
            None => None,
            Some(n) => {
                if n == i128::MIN {
                    return None;
                }
                match self.d.checked_mul(other.d) {
                    None => None,
                    Some(d) => {
                        proof {
                            lemma_mul_pos(self.d as int, other.d as int);
                            lemma_q_add_wf(self@, other@);
                        }
                        let v = reduce(n, d);
                        proof {
                            lemma_q_eq_trans(v@, Q { n: n as int, d: d as int }, q_mul(self@, other@));
                        }
                        Some(v)
                    },
                }
            },
        }
    }

    /// Exact reciprocal of a positive rational.
    pub fn recip(self) -> (r: Rat)
        requires
            self.wf(),
            0 < self@.n,
        ensures
            r.wf(),
            r@ == q_recip(self@),
    {
        Rat { n: self.d, d: self.n }
    }

    /// Exact quotient by a positive rational; total on `q_small` operands.
    pub fn div(self, other: Rat) -> (r: Option<Rat>)
        requires
            self.wf(),
            other.wf(),
            0 < other@.n,
        ensures
            r matches Some(v) ==> v.wf() && q_eq(v@, q_div(self@, other@)),
            q_small(self@) && q_small(other@) ==> r is Some,
    {
        let rs = other.recip();
        proof {
            if q_small(other@) {
                assert(q_small(rs@));
            }
        }
        self.mul(rs)
    }

    /// Comparison `self <= other`, or `None` if a product does not fit;
    /// total on `q_small` operands.
    pub fn le(self, other: Rat) -> (r: Option<bool>)
        requires
            self.wf(),
            other.wf(),
        ensures
            r matches Some(v) ==> v == q_le(self@, other@),
            q_small(self@) && q_small(other@) ==> r is Some,
    {
        match common(self, other) {
            None => None,
            Some((p, q, l)) => {
                proof {
                    lemma_le_common(
                        p as int,
                        q as int,
                        l as int,
                        self@.n,
                        self@.d,
                        other@.n,
                        other@.d,
                    );
                }
                Some(p <= q)
            },
        }
    }

    /// Comparison `self < other`, or `None` if a product does not fit;
    /// total on `q_small` operands.
    pub fn lt(self, other: Rat) -> (r: Option<bool>)
        requires
            self.wf(),
            other.wf(),
        ensures
            r matches Some(v) ==> v == q_lt(self@, other@),
            q_small(self@) && q_small(other@) ==> r is Some,
    {
        match other.le(self) {
            None => None,
            Some(v) => Some(!v),
        }
    }

    /// Value equality test, or `None` if a product does not fit; total
    /// on `q_small` operands.
    pub fn eq_val(self, other: Rat) -> (r: Option<bool>)
        requires
            self.wf(),
            other.wf(),
        ensures
            r matches Some(v) ==> v == q_eq(self@, other@),
            q_small(self@) && q_small(other@) ==> r is Some,
    {
        match common(self, other) {
            None => None,
            Some((p, q, l)) => {
                proof {
                    lemma_eq_common(
                        p as int,
                        q as int,
                        l as int,
                        self@.n,
                        self@.d,
                        other@.n,
                        other@.d,
                    );
                }
                Some(p == q)
            },
        }
    }

    /// Absolute value.
    pub fn abs(self) -> (r: Rat)
        requires
            self.wf(),
        ensures
            r.wf(),
            0 <= r@.n,
            q_le(q_zero(), self@) ==> r@ == self@,
            !q_le(q_zero(), self@) ==> r@ == q_neg(self@),
    {
        if self.n < 0 {
            Rat { n: -self.n, d: self.d }
        } else {
            self
        }
    }
}

/// Greatest common divisor by Euclid's algorithm: positive, and divides
/// both arguments exactly.
fn euclid(a: i128, b: i128) -> (g: i128)
    requires
        0 <= a,
        0 <= b,
        1 <= a || 1 <= b,
    ensures
        1 <= g,
        divides(g as int, a as int),
        divides(g as int, b as int),
    decreases b,
{
    if b == 0 {
        proof {
            assert(a as int == (a as int) * 1);
            assert(0int == (a as int) * 0);
        }
        a
    } else {
        let r = match a.checked_rem(b) {
            Some(v) => v,
            None => 0,
        };
        let g = euclid(b, r);
        proof {
            vstd::arithmetic::div_mod::lemma_fundamental_div_mod(a as int, b as int);
            let k1 = choose|k: int| b as int == #[trigger] ((g as int) * k);
            let k2 = choose|k: int| r as int == #[trigger] ((g as int) * k);
            let q = (a as int) / (b as int);
            assert(a as int == (g as int) * (k1 * q + k2)) by (nonlinear_arith)
                requires
                    a as int == (b as int) * q + (r as int),
                    b as int == (g as int) * k1,
                    r as int == (g as int) * k2,
            ;
        }
        g
    }
}

/// An exact division of a known multiple: `(g * k) / g == k`.
proof fn lemma_exact_div(x: int, g: int, k: int)
    requires
        1 <= g,
        0 <= x,
        x == g * k,
    ensures
        0 <= k,
        k <= x,
        x / g == k,
{
    assert(0 <= k && k <= x) by (nonlinear_arith)
        requires
            x == g * k,
            1 <= g,
            0 <= x,
    ;
    assert(x == k * g) by (nonlinear_arith)
        requires
            x == g * k,
    ;
    vstd::arithmetic::div_mod::lemma_div_by_multiple(k, g);
}

/// Reduce `n / d` by the greatest common divisor; total, and exact by
/// the divisibility that `euclid` establishes.
fn reduce(n: i128, d: i128) -> (r: Rat)
    requires
        1 <= d,
        i128::MIN < n,
    ensures
        r.wf(),
        q_eq(r@, Q { n: n as int, d: d as int }),
{
    let na: i128 = if n < 0 {
        -n
    } else {
        n
    };
    let g = euclid(na, d);
    let ghost kn = choose|k: int| na as int == #[trigger] ((g as int) * k);
    let ghost kd = choose|k: int| d as int == #[trigger] ((g as int) * k);
    proof {
        lemma_exact_div(na as int, g as int, kn);
        lemma_exact_div(d as int, g as int, kd);
        assert(1 <= kd) by (nonlinear_arith)
            requires
                d as int == (g as int) * kd,
                1 <= d as int,
                1 <= g as int,
        ;
    }
    let qn = match n.checked_div(g) {
        Some(v) => v,
        None => 0,
    };
    let qd = match d.checked_div(g) {
        Some(v) => v,
        None => 0,
    };
    proof {
        assert(qd as int == kd);
        if n >= 0 {
            assert(qn as int == kn);
        } else {
            assert(qn as int == -kn);
        }
        assert((qn as int) * (g as int) == n as int) by (nonlinear_arith)
            requires
                na as int == (g as int) * kn,
                qn as int == (if n < 0 { -kn } else { kn }),
                na as int == (if n < 0 { -(n as int) } else { n as int }),
        ;
        assert((qd as int) * (g as int) == d as int) by (nonlinear_arith)
            requires
                d as int == (g as int) * kd,
                qd as int == kd,
        ;
        lemma_reduce_eq(qn as int, qd as int, g as int, n as int, d as int);
    }
    Rat { n: qn, d: qd }
}

/// Bring two well-formed rationals over the common denominator `l`
/// (the least common multiple of the two denominators): returns
/// `(p, q, l)` with `p / l == a` and `q / l == b`, stated by
/// cross-multiplication. For `q_small` operands the products provably
/// fit, so the result is `Some` with both numerators within `2^124`.
fn common(a: Rat, b: Rat) -> (r: Option<(i128, i128, i128)>)
    requires
        a.wf(),
        b.wf(),
    ensures
        r matches Some(t) ==> {
            &&& 0 < t.2
            &&& t.0 * a@.d == a@.n * t.2
            &&& t.1 * b@.d == b@.n * t.2
        },
        q_small(a@) && q_small(b@) ==> (r matches Some(t2)
            && -0x1000_0000_0000_0000_0000_0000_0000_0000 <= t2.0
            <= 0x1000_0000_0000_0000_0000_0000_0000_0000
            && -0x1000_0000_0000_0000_0000_0000_0000_0000 <= t2.1
            <= 0x1000_0000_0000_0000_0000_0000_0000_0000),
{
    let g = euclid(a.d, b.d);
    let ghost ka = choose|k: int| a.d as int == #[trigger] ((g as int) * k);
    let ghost kb = choose|k: int| b.d as int == #[trigger] ((g as int) * k);
    proof {
        lemma_exact_div(a.d as int, g as int, ka);
        lemma_exact_div(b.d as int, g as int, kb);
    }
    let bq = match b.d.checked_div(g) {
        Some(v) => v,
        None => 0,
    };
    let aq = match a.d.checked_div(g) {
        Some(v) => v,
        None => 0,
    };
    proof {
        assert(bq as int == kb);
        assert(aq as int == ka);
        assert(1 <= kb) by (nonlinear_arith)
            requires
                b.d as int == (g as int) * kb,
                1 <= b.d as int,
                1 <= g as int,
        ;
        assert(1 <= ka) by (nonlinear_arith)
            requires
                a.d as int == (g as int) * ka,
                1 <= a.d as int,
                1 <= g as int,
        ;
    }
    let l = match a.d.checked_mul(bq) {
        Some(v) => v,
        None => {
            proof {
                if q_small(a@) && q_small(b@) {
                    assert(0 <= (a.d as int) * (bq as int)
                        <= 0x1000_0000_0000_0000_0000_0000_0000_0000) by (nonlinear_arith)
                        requires
                            0 < a.d as int <= 0x4000_0000_0000_0000,
                            0 <= bq as int <= 0x4000_0000_0000_0000,
                    ;
                }
            }
            return None;
        },
    };
    let p = match a.n.checked_mul(bq) {
        Some(v) => v,
        None => {
            proof {
                if q_small(a@) && q_small(b@) {
                    assert(-0x1000_0000_0000_0000_0000_0000_0000_0000 <= (a.n as int) * (bq as int)
                        <= 0x1000_0000_0000_0000_0000_0000_0000_0000) by (nonlinear_arith)
                        requires
                            -0x4000_0000_0000_0000 <= a.n as int <= 0x4000_0000_0000_0000,
                            0 <= bq as int <= 0x4000_0000_0000_0000,
                    ;
                }
            }
            return None;
        },
    };
    let q = match b.n.checked_mul(aq) {
        Some(v) => v,
        None => {
            proof {
                if q_small(a@) && q_small(b@) {
                    assert(-0x1000_0000_0000_0000_0000_0000_0000_0000 <= (b.n as int) * (aq as int)
                        <= 0x1000_0000_0000_0000_0000_0000_0000_0000) by (nonlinear_arith)
                        requires
                            -0x4000_0000_0000_0000 <= b.n as int <= 0x4000_0000_0000_0000,
                            0 <= aq as int <= 0x4000_0000_0000_0000,
                    ;
                }
            }
            return None;
        },
    };
    proof {
        assert((g as int) * (bq as int) == b.d as int) by (nonlinear_arith)
            requires
                b.d as int == (g as int) * kb,
                bq as int == kb,
        ;
        assert((g as int) * (aq as int) == a.d as int) by (nonlinear_arith)
            requires
                a.d as int == (g as int) * ka,
                aq as int == ka,
        ;
        lemma_mul_pos(a.d as int, bq as int);
        lemma_common(
            a@.n,
            a@.d,
            b@.n,
            b@.d,
            g as int,
            aq as int,
            bq as int,
            l as int,
            p as int,
            q as int,
        );
        if q_small(a@) && q_small(b@) {
            assert(-0x1000_0000_0000_0000_0000_0000_0000_0000 <= (a.n as int) * (bq as int)
                <= 0x1000_0000_0000_0000_0000_0000_0000_0000) by (nonlinear_arith)
                requires
                    -0x4000_0000_0000_0000 <= a.n as int <= 0x4000_0000_0000_0000,
                    0 <= bq as int <= 0x4000_0000_0000_0000,
            ;
            assert(-0x1000_0000_0000_0000_0000_0000_0000_0000 <= (b.n as int) * (aq as int)
                <= 0x1000_0000_0000_0000_0000_0000_0000_0000) by (nonlinear_arith)
                requires
                    -0x4000_0000_0000_0000 <= b.n as int <= 0x4000_0000_0000_0000,
                    0 <= aq as int <= 0x4000_0000_0000_0000,
            ;
        }
    }
    Some((p, q, l))
}

proof fn lemma_common(
    an: int,
    ad: int,
    bn: int,
    bd: int,
    g: int,
    aq: int,
    bq: int,
    l: int,
    p: int,
    q: int,
)
    requires
        g * bq == bd,
        g * aq == ad,
        l == ad * bq,
        p == an * bq,
        q == bn * aq,
    ensures
        p * ad == an * l,
        q * bd == bn * l,
{
    assert(p * ad == an * l) by (nonlinear_arith)
        requires
            l == ad * bq,
            p == an * bq,
    ;
    assert(q * bd == bn * l) by (nonlinear_arith)
        requires
            g * bq == bd,
            g * aq == ad,
            l == ad * bq,
            q == bn * aq,
    ;
}

proof fn lemma_add_common(p: int, q: int, l: int, an: int, ad: int, bn: int, bd: int)
    requires
        p * ad == an * l,
        q * bd == bn * l,
    ensures
        q_eq(Q { n: p + q, d: l }, q_add(Q { n: an, d: ad }, Q { n: bn, d: bd })),
{
    assert((p + q) * (ad * bd) == (p * ad) * bd + (q * bd) * ad) by (nonlinear_arith);
    assert((p * ad) * bd == (an * l) * bd) by (nonlinear_arith)
        requires
            p * ad == an * l,
    ;
    assert((q * bd) * ad == (bn * l) * ad) by (nonlinear_arith)
        requires
            q * bd == bn * l,
    ;
    assert((an * l) * bd + (bn * l) * ad == (an * bd + bn * ad) * l) by (nonlinear_arith);
}

proof fn lemma_le_common(p: int, q: int, l: int, an: int, ad: int, bn: int, bd: int)
    requires
        0 < l,
        0 < ad,
        0 < bd,
        p * ad == an * l,
        q * bd == bn * l,
    ensures
        (p <= q) == q_le(Q { n: an, d: ad }, Q { n: bn, d: bd }),
{
    lemma_mul_pos(ad, bd);
    lemma_mul_le_cancel(p, q, ad * bd);
    assert(p * (ad * bd) == (an * bd) * l) by (nonlinear_arith)
        requires
            p * ad == an * l,
    ;
    assert(q * (ad * bd) == (bn * ad) * l) by (nonlinear_arith)
        requires
            q * bd == bn * l,
    ;
    lemma_mul_le_cancel(an * bd, bn * ad, l);
}

proof fn lemma_eq_common(p: int, q: int, l: int, an: int, ad: int, bn: int, bd: int)
    requires
        0 < l,
        0 < ad,
        0 < bd,
        p * ad == an * l,
        q * bd == bn * l,
    ensures
        (p == q) == q_eq(Q { n: an, d: ad }, Q { n: bn, d: bd }),
{
    lemma_le_common(p, q, l, an, ad, bn, bd);
    lemma_le_common(q, p, l, bn, bd, an, ad);
}

proof fn lemma_reduce_eq(qn: int, qd: int, g: int, n: int, d: int)
    requires
        qn * g == n,
        qd * g == d,
    ensures
        qn * d == n * qd,
{
    assert(qn * d == n * qd) by (nonlinear_arith)
        requires
            qn * g == n,
            qd * g == d,
    ;
}

} // verus!
