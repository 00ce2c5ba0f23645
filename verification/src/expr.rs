//! The expression algebra: scalar functions of one implicit free variable,
//! combining an affine part, an accumulated list of nested children, and
//! binary minimum. Supports addition, scaling by a non-negative rational,
//! division by a positive rational, and fixed-point extraction by bisection.

use vstd::prelude::*;
use crate::rat::Q;
use crate::rat::Rat;
use crate::rat::q_wf;
use crate::rat::q_eq;
use crate::rat::q_add;
use crate::rat::q_mul;
use crate::rat::q_min;
use crate::rat::q_le;
use crate::rat::q_lt;
use crate::rat::q_sub;
use crate::rat::q_zero;
use crate::rat::q_int;
use crate::rat::q_small;
use crate::rat::q_div;
use crate::rat::q_neg;
use crate::rat::lemma_q_mul_comm;
use crate::rat::lemma_q_mul_assoc;
use crate::rat::lemma_q_distr_l;
use crate::rat::lemma_q_distr_r;
use crate::rat::lemma_q_swap_mid;
use crate::rat::lemma_q_min_scale;
use crate::rat::lemma_q_min_congr;
use crate::rat::lemma_q_add_zero_val;
use crate::rat::lemma_q_lt_le_trans;
use crate::rat::lemma_q_mul_mono;
use crate::rat::lemma_q_add_mono;
use crate::rat::lemma_q_sub_le_shift;
use crate::rat::lemma_q_half_step;
use crate::rat::lemma_q_double_step;
use crate::rat::lemma_q_mid;
use crate::rat::lemma_q_eq_trans;
use crate::rat::lemma_q_le_trans;
use crate::rat::lemma_q_add_wf;
use crate::rat::lemma_q_add_congr;
use crate::rat::lemma_q_mul_congr;
use crate::rat::lemma_q_le_congr;
use crate::rat::lemma_q_add_zero;
use crate::rat::lemma_q_add_assoc;
use crate::rat::lemma_q_add_comm;
use crate::rat::lemma_mul_pos;

verus! {

/// An algebraic function of one implicit scalar variable `x`.
pub enum Expr {
    /// `one * x + zero + (sum of the children's values)`.
    Sum { one: Rat, zero: Rat, nonlinear: Vec<Expr> },
    /// `min(a(x), b(x))`.
    Min { a: Box<Expr>, b: Box<Expr> },
}

/// Every expression of the sequence is well-formed.
pub open spec fn all_wf(es: Seq<Expr>) -> bool
    decreases es,
{
    forall|i: int| 0 <= i < es.len() ==> (#[trigger] es[i]).wf()
}

/// Every rational stored in the sequence's trees is within `q_small`.
pub open spec fn all_small(es: Seq<Expr>) -> bool
    decreases es,
{
    forall|i: int| 0 <= i < es.len() ==> (#[trigger] es[i]).small()
}

/// The value of an expression at `x`.
pub open spec fn eval_spec(e: Expr, x: Q) -> Q
    decreases e,
{
    match e {
        Expr::Sum { one, zero, nonlinear } => q_add(
            q_add(q_mul(one@, x), zero@),
            eval_children(nonlinear@, x),
        ),
        Expr::Min { a, b } => q_min(eval_spec(*a, x), eval_spec(*b, x)),
    }
}

/// The sum of the values of a sequence of expressions at `x`.
pub open spec fn eval_children(es: Seq<Expr>, x: Q) -> Q
    decreases es,
{
    if es.len() == 0 {
        q_zero()
    } else {
        q_add(eval_spec(es[0], x), eval_children(es.drop_first(), x))
    }
}

impl Expr {
    /// Every rational stored in the tree is well-formed.
    pub open spec fn wf(self) -> bool
        decreases self,
    {
        match self {
            Expr::Sum { one, zero, nonlinear } => one.wf() && zero.wf() && all_wf(nonlinear@),
            Expr::Min { a, b } => a.wf() && b.wf(),
        }
    }

    /// Every rational stored in the tree is within the `q_small` bound,
    /// under which the combinators cannot fail.
    pub open spec fn small(self) -> bool
        decreases self,
    {
        match self {
            Expr::Sum { one, zero, nonlinear } => q_small(one@) && q_small(zero@) && all_small(
                nonlinear@,
            ),
            Expr::Min { a, b } => a.small() && b.small(),
        }
    }
}

proof fn lemma_all_wf_drop(es: Seq<Expr>)
    requires
        all_wf(es),
        es.len() > 0,
    ensures
        all_wf(es.drop_first()),
{
    assert forall|i: int| 0 <= i < es.drop_first().len() implies (#[trigger] es.drop_first()[i]).wf() by {
        assert(es.drop_first()[i] == es[i + 1]);
    }
}

proof fn lemma_all_wf_push(es: Seq<Expr>, e: Expr)
    requires
        all_wf(es),
        e.wf(),
    ensures
        all_wf(es.push(e)),
{
    assert forall|i: int| 0 <= i < es.push(e).len() implies (#[trigger] es.push(e)[i]).wf() by {
        if i < es.len() {
            assert(es.push(e)[i] == es[i]);
        } else {
            assert(es.push(e)[i] == e);
        }
    }
}

proof fn lemma_all_wf_take(es: Seq<Expr>, k: int)
    requires
        all_wf(es),
        0 <= k <= es.len(),
    ensures
        all_wf(es.take(k)),
{
    assert forall|i: int| 0 <= i < es.take(k).len() implies (#[trigger] es.take(k)[i]).wf() by {
        assert(es.take(k)[i] == es[i]);
    }
}

/// A well-formed expression evaluates to a well-formed rational.
pub proof fn lemma_eval_wf(e: Expr, x: Q)
    requires
        e.wf(),
        q_wf(x),
    ensures
        q_wf(eval_spec(e, x)),
    decreases e,
{
    match e {
        Expr::Sum { one, zero, nonlinear } => {
            lemma_eval_children_wf(nonlinear@, x);
            lemma_q_add_wf(one@, x);
            lemma_q_add_wf(q_mul(one@, x), zero@);
            lemma_q_add_wf(q_add(q_mul(one@, x), zero@), eval_children(nonlinear@, x));
        },
        Expr::Min { a, b } => {
            lemma_eval_wf(*a, x);
            lemma_eval_wf(*b, x);
        },
    }
}

/// The sum of the values of well-formed expressions is well-formed.
pub proof fn lemma_eval_children_wf(es: Seq<Expr>, x: Q)
    requires
        q_wf(x),
        all_wf(es),
    ensures
        q_wf(eval_children(es, x)),
    decreases es,
{
    if es.len() == 0 {
    } else {
        lemma_eval_wf(es[0], x);
        lemma_all_wf_drop(es);
        lemma_eval_children_wf(es.drop_first(), x);
        lemma_q_add_wf(eval_spec(es[0], x), eval_children(es.drop_first(), x));
    }
}

/// Appending one expression adds its value to the sum of the sequence.
pub proof fn lemma_children_push(es: Seq<Expr>, e: Expr, x: Q)
    requires
        q_wf(x),
        e.wf(),
        all_wf(es),
    ensures
        q_eq(eval_children(es.push(e), x), q_add(eval_children(es, x), eval_spec(e, x))),
    decreases es,
{
    lemma_eval_wf(e, x);
    lemma_eval_children_wf(es, x);
    if es.len() == 0 {
        assert(es.push(e)[0] == e);
        assert(es.push(e).drop_first() =~= Seq::<Expr>::empty());
        assert(eval_children(Seq::<Expr>::empty(), x) == q_zero());
        assert(eval_children(es.push(e), x) == q_add(eval_spec(e, x), q_zero()));
        lemma_q_add_zero(eval_spec(e, x));
    } else {
        assert(es.push(e)[0] == es[0]);
        assert(es.push(e).drop_first() =~= es.drop_first().push(e));
        lemma_all_wf_drop(es);
        lemma_children_push(es.drop_first(), e, x);
        let ev0 = eval_spec(es[0], x);
        let rest = eval_children(es.drop_first(), x);
        let eve = eval_spec(e, x);
        lemma_eval_wf(es[0], x);
        lemma_eval_children_wf(es.drop_first(), x);
        lemma_all_wf_push(es.drop_first(), e);
        lemma_eval_children_wf(es.drop_first().push(e), x);
        lemma_q_add_wf(rest, eve);
        lemma_q_add_congr(ev0, ev0, eval_children(es.drop_first().push(e), x), q_add(rest, eve));
        lemma_q_add_assoc(ev0, rest, eve);
        lemma_q_add_wf(ev0, q_add(rest, eve));
        lemma_q_add_wf(q_add(ev0, rest), eve);
        lemma_q_add_wf(ev0, eval_children(es.drop_first().push(e), x));
        lemma_q_eq_trans(
            eval_children(es.push(e), x),
            q_add(ev0, q_add(rest, eve)),
            q_add(q_add(ev0, rest), eve),
        );
    }
}

proof fn lemma_all_wf_concat(s1: Seq<Expr>, s2: Seq<Expr>)
    requires
        all_wf(s1),
        all_wf(s2),
    ensures
        all_wf(s1 + s2),
{
    assert forall|i: int| 0 <= i < (s1 + s2).len() implies (#[trigger] (s1 + s2)[i]).wf() by {
        if i < s1.len() {
            assert((s1 + s2)[i] == s1[i]);
        } else {
            assert((s1 + s2)[i] == s2[i - s1.len()]);
        }
    }
}

/// Concatenating sequences adds their sums of values.
pub proof fn lemma_children_concat(s1: Seq<Expr>, s2: Seq<Expr>, x: Q)
    requires
        q_wf(x),
        all_wf(s1),
        all_wf(s2),
    ensures
        q_eq(eval_children(s1 + s2, x), q_add(eval_children(s1, x), eval_children(s2, x))),
    decreases s1,
{
    lemma_eval_children_wf(s1, x);
    lemma_eval_children_wf(s2, x);
    if s1.len() == 0 {
        assert(s1 + s2 =~= s2);
        lemma_q_add_zero_val(q_zero(), eval_children(s2, x));
    } else {
        assert((s1 + s2).len() > 0);
        assert((s1 + s2)[0] == s1[0]);
        assert((s1 + s2).drop_first() =~= s1.drop_first() + s2);
        lemma_all_wf_drop(s1);
        lemma_children_concat(s1.drop_first(), s2, x);
        let ev0 = eval_spec(s1[0], x);
        let rest = eval_children(s1.drop_first(), x);
        let evc2 = eval_children(s2, x);
        lemma_eval_wf(s1[0], x);
        lemma_eval_children_wf(s1.drop_first(), x);
        lemma_all_wf_concat(s1.drop_first(), s2);
        lemma_eval_children_wf(s1.drop_first() + s2, x);
        lemma_q_add_wf(rest, evc2);
        lemma_q_add_congr(ev0, ev0, eval_children(s1.drop_first() + s2, x), q_add(rest, evc2));
        lemma_q_add_assoc(ev0, rest, evc2);
        lemma_q_add_wf(ev0, eval_children(s1.drop_first() + s2, x));
        lemma_q_add_wf(ev0, q_add(rest, evc2));
        lemma_q_add_wf(q_add(ev0, rest), evc2);
        lemma_q_eq_trans(
            eval_children(s1 + s2, x),
            q_add(ev0, q_add(rest, evc2)),
            q_add(q_add(ev0, rest), evc2),
        );
    }
}

/// If each element of `scaled` evaluates to `s` times the matching element
/// of `orig`, the sums of values are scaled the same way.
proof fn lemma_children_scaled(orig: Seq<Expr>, scaled: Seq<Expr>, s: Q, x: Q)
    requires
        q_wf(x),
        q_wf(s),
        all_wf(orig),
        all_wf(scaled),
        orig.len() == scaled.len(),
        forall|j: int|
            0 <= j < orig.len() ==> q_eq(
                #[trigger] eval_spec(scaled[j], x),
                q_mul(s, eval_spec(orig[j], x)),
            ),
    ensures
        q_eq(eval_children(scaled, x), q_mul(s, eval_children(orig, x))),
    decreases orig,
{
    lemma_eval_children_wf(orig, x);
    lemma_eval_children_wf(scaled, x);
    if orig.len() == 0 {
        assert(q_mul(s, q_zero()).n == s.n * 0);
        assert(s.n * 0 == 0) by (nonlinear_arith);
        assert(q_eq(q_zero(), q_mul(s, q_zero())));
    } else {
        lemma_all_wf_drop(orig);
        lemma_all_wf_drop(scaled);
        assert forall|j: int|
            0 <= j < orig.drop_first().len() implies q_eq(
            #[trigger] eval_spec(scaled.drop_first()[j], x),
            q_mul(s, eval_spec(orig.drop_first()[j], x)),
        ) by {
            assert(scaled.drop_first()[j] == scaled[j + 1]);
            assert(orig.drop_first()[j] == orig[j + 1]);
        }
        lemma_children_scaled(orig.drop_first(), scaled.drop_first(), s, x);
        let evo0 = eval_spec(orig[0], x);
        let evs0 = eval_spec(scaled[0], x);
        let resto = eval_children(orig.drop_first(), x);
        let rests = eval_children(scaled.drop_first(), x);
        lemma_eval_wf(orig[0], x);
        lemma_eval_wf(scaled[0], x);
        lemma_eval_children_wf(orig.drop_first(), x);
        lemma_eval_children_wf(scaled.drop_first(), x);
        lemma_q_add_wf(s, evo0);
        lemma_q_add_wf(s, resto);
        lemma_q_add_congr(evs0, q_mul(s, evo0), rests, q_mul(s, resto));
        lemma_q_distr_l(s, evo0, resto);
        lemma_q_add_wf(evs0, rests);
        lemma_q_add_wf(q_mul(s, evo0), q_mul(s, resto));
        lemma_q_add_wf(evo0, resto);
        lemma_q_add_wf(s, q_add(evo0, resto));
        lemma_q_eq_trans(
            q_add(evs0, rests),
            q_add(q_mul(s, evo0), q_mul(s, resto)),
            q_mul(s, q_add(evo0, resto)),
        );
    }
}

impl Expr {
    /// A constant expression: coefficient `0`, constant `c`, no children.
    /// For every `x` it evaluates to `c`.
    pub fn constant(c: Rat) -> (r: Expr)
        requires
            c.wf(),
        ensures
            r.wf(),
            forall|x: Q| q_wf(x) ==> q_eq(#[trigger] eval_spec(r, x), c@),
    {
        let r = Expr::Sum { one: Rat::from_int(0), zero: c, nonlinear: Vec::new() };
        proof {
            assert(all_wf(Seq::<Expr>::empty()));
            assert(r.wf());
            assert forall|x: Q| q_wf(x) implies q_eq(#[trigger] eval_spec(r, x), c@) by {
                let m = q_mul(q_int(0), x);
                assert(m.n == 0);
                assert(m.d == x.d);
                let s = q_add(m, c@);
                assert(s.n == c@.n * x.d);
                assert(s.d == x.d * c@.d);
                assert(eval_children(Seq::<Expr>::empty(), x) == q_zero());
                assert(eval_spec(r, x) == q_add(s, q_zero()));
                lemma_mul_pos(x.d, c@.d);
                lemma_q_add_zero(s);
                assert((c@.n * x.d) * c@.d == c@.n * (x.d * c@.d)) by (nonlinear_arith);
            }
        }
        r
    }

    /// The expression `k * x`: coefficient `k`, constant `0`, no children.
    /// With `k = 1` it denotes one occurrence of the unknown being solved for.
    pub fn self_consistent(k: Rat) -> (r: Expr)
        requires
            k.wf(),
        ensures
            r.wf(),
            forall|x: Q| q_wf(x) ==> q_eq(#[trigger] eval_spec(r, x), q_mul(k@, x)),
    {
        let r = Expr::Sum { one: k, zero: Rat::from_int(0), nonlinear: Vec::new() };
        proof {
            assert(all_wf(Seq::<Expr>::empty()));
            assert(r.wf());
            assert forall|x: Q| q_wf(x) implies q_eq(#[trigger] eval_spec(r, x), q_mul(k@, x)) by {
                let m = q_mul(k@, x);
                let s = q_add(m, q_int(0));
                assert(s.n == m.n);
                assert(s.d == m.d);
                assert(eval_children(Seq::<Expr>::empty(), x) == q_zero());
                assert(eval_spec(r, x) == q_add(s, q_zero()));
                lemma_q_add_wf(k@, x);
                lemma_q_add_zero(s);
            }
        }
        r
    }

    /// The pointwise minimum of two expressions.
    pub fn min(self, other: Expr) -> (r: Expr)
        requires
            self.wf(),
            other.wf(),
        ensures
            r.wf(),
            forall|x: Q|
                #[trigger] eval_spec(r, x) == q_min(eval_spec(self, x), eval_spec(other, x)),
    {
        Expr::Min { a: Box::new(self), b: Box::new(other) }
    }

    /// Add two expressions: affine parts combine, child lists concatenate,
    /// and a `Min` operand is appended as a child. For every `x` the result
    /// evaluates to the sum of the two operands' values, or `None` if the
    /// exact arithmetic leaves the machine range.
    pub fn add(self, other: Expr) -> (r: Option<Expr>)
        requires
            self.wf(),
            other.wf(),
        ensures
            r matches Some(v) ==> v.wf() && forall|x: Q|
                q_wf(x) ==> q_eq(
                    #[trigger] eval_spec(v, x),
                    q_add(eval_spec(self, x), eval_spec(other, x)),
                ),
            self.small() && other.small() ==> r is Some,
            r matches Some(v) ==> v is Sum,
    {
        let ghost e1 = self;
        let ghost e2 = other;
        match (self, other) {
            (
                Expr::Sum { one, zero, mut nonlinear },
                Expr::Sum { one: one2, zero: zero2, nonlinear: mut nonlinear2 },
            ) => {
                let ghost nl1 = nonlinear@;
                let ghost nl2 = nonlinear2@;
                let o = match one.add(one2) {
                    Some(v) => v,
                    None => {
                        return None;
                    },
                };
                let z = match zero.add(zero2) {
                    Some(v) => v,
                    None => {
                        return None;
                    },
                };
                nonlinear.append(&mut nonlinear2);
                let r = Expr::Sum { one: o, zero: z, nonlinear };
                proof {
                    lemma_all_wf_concat(nl1, nl2);
                    assert(r.wf());
                    assert forall|x: Q| q_wf(x) implies q_eq(
                        #[trigger] eval_spec(r, x),
                        q_add(eval_spec(e1, x), eval_spec(e2, x)),
                    ) by {
                        let m1 = q_mul(one@, x);
                        let m2 = q_mul(one2@, x);
                        let z1 = zero@;
                        let z2 = zero2@;
                        let c1 = eval_children(nl1, x);
                        let c2 = eval_children(nl2, x);
                        lemma_q_add_wf(one@, x);
                        lemma_q_add_wf(one2@, x);
                        lemma_eval_children_wf(nl1, x);
                        lemma_eval_children_wf(nl2, x);
                        lemma_q_add_wf(one@, one2@);
                        lemma_q_add_wf(z1, z2);
                        lemma_q_add_wf(m1, m2);
                        lemma_q_add_wf(c1, c2);
                        // the scaled coefficient: o * x ~ m1 + m2
                        lemma_q_add_wf(o@, x);
                        lemma_q_mul_congr(o@, q_add(one@, one2@), x, x);
                        lemma_q_distr_r(one@, one2@, x);
                        lemma_q_add_wf(q_add(one@, one2@), x);
                        lemma_q_eq_trans(q_mul(o@, x), q_mul(q_add(one@, one2@), x), q_add(m1, m2));
                        // the whole affine part
                        lemma_q_add_congr(q_mul(o@, x), q_add(m1, m2), z@, q_add(z1, z2));
                        // the children
                        lemma_children_concat(nl1, nl2, x);
                        // eval(r) ~ (m1+m2 + z1+z2) + (c1+c2)
                        lemma_q_add_wf(q_mul(o@, x), z@);
                        lemma_q_add_wf(q_add(m1, m2), q_add(z1, z2));
                        lemma_eval_children_wf(nl1 + nl2, x);
                        lemma_q_add_congr(
                            q_add(q_mul(o@, x), z@),
                            q_add(q_add(m1, m2), q_add(z1, z2)),
                            eval_children(nl1 + nl2, x),
                            q_add(c1, c2),
                        );
                        // regroup twice
                        lemma_q_swap_mid(m1, m2, z1, z2);
                        lemma_q_add_wf(m1, z1);
                        lemma_q_add_wf(m2, z2);
                        lemma_q_add_wf(q_add(m1, m2), q_add(z1, z2));
                        lemma_q_add_wf(q_add(m1, z1), q_add(m2, z2));
                        lemma_q_add_congr(
                            q_add(q_add(m1, m2), q_add(z1, z2)),
                            q_add(q_add(m1, z1), q_add(m2, z2)),
                            q_add(c1, c2),
                            q_add(c1, c2),
                        );
                        lemma_q_swap_mid(q_add(m1, z1), q_add(m2, z2), c1, c2);
                        // chain everything
                        lemma_q_add_wf(q_add(q_mul(o@, x), z@), eval_children(nl1 + nl2, x));
                        lemma_q_add_wf(q_add(q_add(m1, m2), q_add(z1, z2)), q_add(c1, c2));
                        lemma_q_add_wf(q_add(q_add(m1, z1), q_add(m2, z2)), q_add(c1, c2));
                        lemma_q_add_wf(q_add(m1, z1), c1);
                        lemma_q_add_wf(q_add(m2, z2), c2);
                        lemma_q_add_wf(q_add(q_add(m1, z1), c1), q_add(q_add(m2, z2), c2));
                        lemma_q_eq_trans(
                            eval_spec(r, x),
                            q_add(q_add(q_add(m1, m2), q_add(z1, z2)), q_add(c1, c2)),
                            q_add(q_add(q_add(m1, z1), q_add(m2, z2)), q_add(c1, c2)),
                        );
                        lemma_q_eq_trans(
                            eval_spec(r, x),
                            q_add(q_add(q_add(m1, z1), q_add(m2, z2)), q_add(c1, c2)),
                            q_add(q_add(q_add(m1, z1), c1), q_add(q_add(m2, z2), c2)),
                        );
                    }
                }
                Some(r)
            },
            (Expr::Sum { one, zero, mut nonlinear }, e) => {
                let ghost nl1 = nonlinear@;
                nonlinear.push(e);
                let r = Expr::Sum { one, zero, nonlinear };
                proof {
                    lemma_all_wf_push(nl1, e2);
                    assert(r.wf());
                    assert forall|x: Q| q_wf(x) implies q_eq(
                        #[trigger] eval_spec(r, x),
                        q_add(eval_spec(e1, x), eval_spec(e2, x)),
                    ) by {
                        let p = q_add(q_mul(one@, x), zero@);
                        let c1 = eval_children(nl1, x);
                        let eve = eval_spec(e2, x);
                        lemma_q_add_wf(one@, x);
                        lemma_q_add_wf(q_mul(one@, x), zero@);
                        lemma_eval_children_wf(nl1, x);
                        lemma_eval_wf(e2, x);
                        lemma_children_push(nl1, e2, x);
                        lemma_eval_children_wf(nl1.push(e2), x);
                        lemma_q_add_wf(c1, eve);
                        lemma_q_add_wf(p, c1);
                        lemma_q_add_congr(p, p, eval_children(nl1.push(e2), x), q_add(c1, eve));
                        lemma_q_add_assoc(p, c1, eve);
                        lemma_q_add_wf(p, eval_children(nl1.push(e2), x));
                        lemma_q_add_wf(p, q_add(c1, eve));
                        lemma_q_add_wf(q_add(p, c1), eve);
                        lemma_q_eq_trans(
                            eval_spec(r, x),
                            q_add(p, q_add(c1, eve)),
                            q_add(q_add(p, c1), eve),
                        );
                    }
                }
                Some(r)
            },
            (e, Expr::Sum { one, zero, mut nonlinear }) => {
                let ghost nl1 = nonlinear@;
                nonlinear.push(e);
                let r = Expr::Sum { one, zero, nonlinear };
                proof {
                    lemma_all_wf_push(nl1, e1);
                    assert(r.wf());
                    assert forall|x: Q| q_wf(x) implies q_eq(
                        #[trigger] eval_spec(r, x),
                        q_add(eval_spec(e1, x), eval_spec(e2, x)),
                    ) by {
                        let p = q_add(q_mul(one@, x), zero@);
                        let c1 = eval_children(nl1, x);
                        let eve = eval_spec(e1, x);
                        lemma_q_add_wf(one@, x);
                        lemma_q_add_wf(q_mul(one@, x), zero@);
                        lemma_eval_children_wf(nl1, x);
                        lemma_eval_wf(e1, x);
                        lemma_children_push(nl1, e1, x);
                        lemma_eval_children_wf(nl1.push(e1), x);
                        lemma_q_add_wf(c1, eve);
                        lemma_q_add_wf(p, c1);
                        lemma_q_add_congr(p, p, eval_children(nl1.push(e1), x), q_add(c1, eve));
                        lemma_q_add_assoc(p, c1, eve);
                        lemma_q_add_wf(p, eval_children(nl1.push(e1), x));
                        lemma_q_add_wf(p, q_add(c1, eve));
                        lemma_q_add_wf(q_add(p, c1), eve);
                        lemma_q_eq_trans(
                            eval_spec(r, x),
                            q_add(p, q_add(c1, eve)),
                            q_add(q_add(p, c1), eve),
                        );
                        // the operand order is swapped relative to the ensures
                        lemma_q_add_comm(q_add(p, c1), eve);
                        lemma_eval_wf(e2, x);
                        lemma_q_add_wf(eve, q_add(p, c1));
                        lemma_q_eq_trans(
                            eval_spec(r, x),
                            q_add(q_add(p, c1), eve),
                            q_add(eve, q_add(p, c1)),
                        );
                    }
                }
                Some(r)
            },
            (ea, eb) => {
                let mut cs: Vec<Expr> = Vec::new();
                cs.push(ea);
                cs.push(eb);
                let r = Expr::Sum {
                    one: Rat::from_int(0),
                    zero: Rat::from_int(0),
                    nonlinear: cs,
                };
                proof {
                    let nl = Seq::<Expr>::empty().push(e1).push(e2);
                    assert(cs@ == nl);
                    assert forall|i: int| 0 <= i < nl.len() implies (#[trigger] nl[i]).wf() by {
                        if i == 0 {
                            assert(nl[0] == e1);
                        } else {
                            assert(nl[1] == e2);
                        }
                    }
                    assert(all_wf(nl));
                    assert(r.wf());
                    assert forall|x: Q| q_wf(x) implies q_eq(
                        #[trigger] eval_spec(r, x),
                        q_add(eval_spec(e1, x), eval_spec(e2, x)),
                    ) by {
                        let ev1 = eval_spec(e1, x);
                        let ev2 = eval_spec(e2, x);
                        lemma_eval_wf(e1, x);
                        lemma_eval_wf(e2, x);
                        let tail = Seq::<Expr>::empty().push(e2);
                        assert(nl.drop_first() =~= tail);
                        assert(tail.drop_first() =~= Seq::<Expr>::empty());
                        assert(nl[0] == e1);
                        assert(tail[0] == e2);
                        assert(eval_children(Seq::<Expr>::empty(), x) == q_zero());
                        assert(eval_children(tail, x) == q_add(ev2, q_zero()));
                        assert(eval_children(nl, x) == q_add(ev1, q_add(ev2, q_zero())));
                        lemma_q_add_zero(ev2);
                        assert(eval_children(nl, x) == q_add(ev1, ev2));
                        let hd = q_add(q_mul(q_int(0), x), q_int(0));
                        assert(q_mul(q_int(0), x).n == 0);
                        assert(q_mul(q_int(0), x).d == x.d);
                        assert(hd.n == 0);
                        assert(hd.d == x.d);
                        assert(q_wf(hd));
                        assert(q_eq(hd, q_zero()));
                        lemma_q_add_wf(ev1, ev2);
                        lemma_q_add_zero_val(hd, q_add(ev1, ev2));
                        assert(eval_spec(r, x) == q_add(hd, q_add(ev1, ev2)));
                    }
                }
                Some(r)
            },
        }
    }

    /// Scale every part of the expression by the non-negative rational `s`.
    /// For every `x` the result evaluates to `s` times the operand's value,
    /// or `None` if the exact arithmetic leaves the machine range.
    #[verifier::loop_isolation(false)]
    pub fn mul(&self, s: Rat) -> (r: Option<Expr>)
        requires
            self.wf(),
            s.wf(),
            q_le(q_zero(), s@),
        ensures
            r matches Some(v) ==> v.wf() && forall|x: Q|
                q_wf(x) ==> q_eq(#[trigger] eval_spec(v, x), q_mul(s@, eval_spec(*self, x))),
            self.small() && q_small(s@) ==> r is Some,
        decreases *self,
    {
        match self {
            Expr::Sum { one, zero, nonlinear } => {
                let o = match one.mul(s) {
                    Some(v) => v,
                    None => {
                        return None;
                    },
                };
                let z = match zero.mul(s) {
                    Some(v) => v,
                    None => {
                        return None;
                    },
                };
                let n = nonlinear.len();
                let mut cs: Vec<Expr> = Vec::new();
                let mut i: usize = 0;
                while i < n
                    invariant
                        i <= n,
                        cs@.len() == i,
                        forall|j: int| 0 <= j < i ==> (#[trigger] cs@[j]).wf(),
                        forall|j: int, x: Q|
                            0 <= j < i && q_wf(x) ==> q_eq(
                                #[trigger] eval_spec(cs@[j], x),
                                q_mul(s@, eval_spec(nonlinear@[j], x)),
                            ),
                    decreases n - i,
                {
                    proof {
                        assert(all_wf(nonlinear@));
                        assert(nonlinear@[i as int].wf());
                        if self.small() {
                            assert(all_small(nonlinear@));
                            assert(nonlinear@[i as int].small());
                        }
                    }
                    let c = match nonlinear[i].mul(s) {
                        Some(v) => v,
                        None => {
                            return None;
                        },
                    };
                    cs.push(c);
                    i = i + 1;
                }
                let r = Expr::Sum { one: o, zero: z, nonlinear: cs };
                proof {
                    assert(all_wf(cs@));
                    assert(r.wf());
                    assert forall|x: Q| q_wf(x) implies q_eq(
                        #[trigger] eval_spec(r, x),
                        q_mul(s@, eval_spec(*self, x)),
                    ) by {
                        let m = q_mul(one@, x);
                        let z0 = zero@;
                        let cc = eval_children(nonlinear@, x);
                        lemma_q_add_wf(one@, x);
                        lemma_q_add_wf(m, z0);
                        lemma_eval_children_wf(nonlinear@, x);
                        lemma_q_add_wf(s@, m);
                        lemma_q_add_wf(s@, z0);
                        lemma_q_add_wf(s@, cc);
                        // o * x ~ s * m
                        lemma_q_add_wf(o@, x);
                        lemma_q_add_wf(one@, s@);
                        lemma_q_add_wf(q_mul(one@, s@), x);
                        lemma_q_mul_assoc(s@, one@, x);
                        lemma_q_mul_comm(s@, one@);
                        lemma_q_mul_congr(o@, q_mul(one@, s@), x, x);
                        lemma_q_eq_trans(q_mul(o@, x), q_mul(q_mul(one@, s@), x), q_mul(s@, m));
                        // z ~ s * z0
                        lemma_q_mul_comm(zero@, s@);
                        // children ~ s * children
                        lemma_children_scaled(nonlinear@, cs@, s@, x);
                        // assemble
                        lemma_q_add_congr(q_mul(o@, x), q_mul(s@, m), z@, q_mul(s@, z0));
                        lemma_q_add_wf(q_mul(o@, x), z@);
                        lemma_q_add_wf(q_mul(s@, m), q_mul(s@, z0));
                        lemma_eval_children_wf(cs@, x);
                        lemma_q_add_congr(
                            q_add(q_mul(o@, x), z@),
                            q_add(q_mul(s@, m), q_mul(s@, z0)),
                            eval_children(cs@, x),
                            q_mul(s@, cc),
                        );
                        lemma_q_distr_l(s@, m, z0);
                        lemma_q_add_wf(q_add(q_mul(s@, m), q_mul(s@, z0)), q_mul(s@, cc));
                        lemma_q_add_wf(s@, q_add(m, z0));
                        lemma_q_add_congr(
                            q_add(q_mul(s@, m), q_mul(s@, z0)),
                            q_mul(s@, q_add(m, z0)),
                            q_mul(s@, cc),
                            q_mul(s@, cc),
                        );
                        lemma_q_distr_l(s@, q_add(m, z0), cc);
                        lemma_q_add_wf(q_add(m, z0), cc);
                        lemma_q_add_wf(s@, q_add(q_add(m, z0), cc));
                        lemma_q_add_wf(q_mul(s@, q_add(m, z0)), q_mul(s@, cc));
                        lemma_q_add_wf(q_add(q_mul(o@, x), z@), eval_children(cs@, x));
                        lemma_q_eq_trans(
                            eval_spec(r, x),
                            q_add(q_add(q_mul(s@, m), q_mul(s@, z0)), q_mul(s@, cc)),
                            q_add(q_mul(s@, q_add(m, z0)), q_mul(s@, cc)),
                        );
                        lemma_q_eq_trans(
                            eval_spec(r, x),
                            q_add(q_mul(s@, q_add(m, z0)), q_mul(s@, cc)),
                            q_mul(s@, q_add(q_add(m, z0), cc)),
                        );
                    }
                }
                Some(r)
            },
            Expr::Min { a, b } => {
                let a2 = match a.mul(s) {
                    Some(v) => v,
                    None => {
                        return None;
                    },
                };
                let b2 = match b.mul(s) {
                    Some(v) => v,
                    None => {
                        return None;
                    },
                };
                let ghost ga = a2;
                let ghost gb = b2;
                let r = Expr::Min { a: Box::new(a2), b: Box::new(b2) };
                proof {
                    assert(r.wf());
                    assert forall|x: Q| q_wf(x) implies q_eq(
                        #[trigger] eval_spec(r, x),
                        q_mul(s@, eval_spec(*self, x)),
                    ) by {
                        let ea = eval_spec(**a, x);
                        let eb = eval_spec(**b, x);
                        lemma_eval_wf(**a, x);
                        lemma_eval_wf(**b, x);
                        lemma_eval_wf(ga, x);
                        lemma_eval_wf(gb, x);
                        lemma_q_add_wf(s@, ea);
                        lemma_q_add_wf(s@, eb);
                        assert(eval_spec(r, x) == q_min(eval_spec(ga, x), eval_spec(gb, x)));
                        lemma_q_min_congr(
                            eval_spec(ga, x),
                            q_mul(s@, ea),
                            eval_spec(gb, x),
                            q_mul(s@, eb),
                        );
                        lemma_q_min_scale(s@, ea, eb);
                        lemma_eval_wf(r, x);
                        lemma_q_add_wf(s@, q_min(ea, eb));
                        lemma_q_eq_trans(
                            eval_spec(r, x),
                            q_min(q_mul(s@, ea), q_mul(s@, eb)),
                            q_mul(s@, q_min(ea, eb)),
                        );
                    }
                }
                Some(r)
            },
        }
    }

    /// Divide every part of the expression by the positive rational `s`.
    /// For every `x` the result evaluates to the operand's value divided by
    /// `s`, or `None` if the exact arithmetic leaves the machine range.
    pub fn div(&self, s: Rat) -> (r: Option<Expr>)
        requires
            self.wf(),
            s.wf(),
            q_lt(q_zero(), s@),
        ensures
            r matches Some(v) ==> v.wf() && forall|x: Q|
                q_wf(x) ==> q_eq(#[trigger] eval_spec(v, x), q_div(eval_spec(*self, x), s@)),
            self.small() && q_small(s@) ==> r is Some,
    {
        let rs = s.recip();
        proof {
            if q_small(s@) {
                assert(q_small(rs@));
            }
        }
        let r = self.mul(rs);
        proof {
            match &r {
                Some(v) => {
                    assert forall|x: Q| q_wf(x) implies q_eq(
                        #[trigger] eval_spec(*v, x),
                        q_div(eval_spec(*self, x), s@),
                    ) by {
                        lemma_q_mul_comm(rs@, eval_spec(*self, x));
                        assert(q_eq(eval_spec(*v, x), q_mul(rs@, eval_spec(*self, x))));
                    }
                },
                None => {},
            }
        }
        r
    }

    /// Evaluate the expression at `x`, or `None` if the exact arithmetic
    /// leaves the machine range.
    #[verifier::loop_isolation(false)]
    pub fn eval(&self, x: &Rat) -> (r: Option<Rat>)
        requires
            self.wf(),
            x.wf(),
        ensures
            r matches Some(v) ==> v.wf() && q_eq(v@, eval_spec(*self, x@)),
        decreases *self,
    {
        match self {
            Expr::Sum { one, zero, nonlinear } => {
                let m = match one.mul(*x) {
                    Some(v) => v,
                    None => {
                        return None;
                    },
                };
                let acc0 = match m.add(*zero) {
                    Some(v) => v,
                    None => {
                        return None;
                    },
                };
                let ghost base = q_add(q_mul(one@, x@), zero@);
                proof {
                    lemma_q_add_wf(one@, x@);
                    lemma_q_add_wf(q_mul(one@, x@), zero@);
                    lemma_q_add_wf(m@, zero@);
                    lemma_q_add_congr(m@, q_mul(one@, x@), zero@, zero@);
                    lemma_q_eq_trans(acc0@, q_add(m@, zero@), base);
                }
                let mut acc = acc0;
                let n = nonlinear.len();
                let mut i: usize = 0;
                proof {
                    assert(nonlinear@.take(0) =~= Seq::<Expr>::empty());
                    lemma_q_add_zero(base);
                }
                while i < n
                    invariant
                        i <= n,
                        acc.wf(),
                        q_eq(acc@, q_add(base, eval_children(nonlinear@.take(i as int), x@))),
                    decreases n - i,
                {
                    proof {
                        assert(all_wf(nonlinear@));
                        assert(nonlinear@[i as int].wf());
                    }
                    let cv = match nonlinear[i].eval(x) {
                        Some(v) => v,
                        None => {
                            return None;
                        },
                    };
                    let acc2 = match acc.add(cv) {
                        Some(v) => v,
                        None => {
                            return None;
                        },
                    };
                    proof {
                        let pre = nonlinear@.take(i as int);
                        let child = nonlinear@[i as int];
                        assert(nonlinear@.take(i + 1) =~= pre.push(child));
                        lemma_all_wf_take(nonlinear@, i as int);
                        lemma_children_push(pre, child, x@);
                        lemma_eval_wf(child, x@);
                        lemma_eval_children_wf(pre, x@);
                        lemma_all_wf_push(pre, child);
                        lemma_eval_children_wf(pre.push(child), x@);
                        lemma_q_add_wf(base, eval_children(pre, x@));
                        lemma_q_add_wf(eval_children(pre, x@), eval_spec(child, x@));
                        lemma_q_add_wf(base, eval_children(pre.push(child), x@));
                        // q_add(base, children(take(i+1)))
                        //   ~ q_add(base, q_add(children(take(i)), child))
                        lemma_q_add_congr(
                            base,
                            base,
                            eval_children(pre.push(child), x@),
                            q_add(eval_children(pre, x@), eval_spec(child, x@)),
                        );
                        //   ~ q_add(q_add(base, children(take(i))), child)
                        lemma_q_add_assoc(base, eval_children(pre, x@), eval_spec(child, x@));
                        //   ~ q_add(acc, cv) ~ acc2
                        lemma_q_add_congr(
                            q_add(base, eval_children(pre, x@)),
                            acc@,
                            eval_spec(child, x@),
                            cv@,
                        );
                        lemma_q_add_wf(base, q_add(eval_children(pre, x@), eval_spec(child, x@)));
                        lemma_q_add_wf(q_add(base, eval_children(pre, x@)), eval_spec(child, x@));
                        lemma_q_add_wf(acc@, cv@);
                        lemma_q_eq_trans(
                            q_add(base, eval_children(pre.push(child), x@)),
                            q_add(base, q_add(eval_children(pre, x@), eval_spec(child, x@))),
                            q_add(q_add(base, eval_children(pre, x@)), eval_spec(child, x@)),
                        );
                        lemma_q_eq_trans(
                            q_add(base, eval_children(pre.push(child), x@)),
                            q_add(q_add(base, eval_children(pre, x@)), eval_spec(child, x@)),
                            q_add(acc@, cv@),
                        );
                        lemma_q_eq_trans(
                            q_add(base, eval_children(pre.push(child), x@)),
                            q_add(acc@, cv@),
                            acc2@,
                        );
                    }
                    acc = acc2;
                    i = i + 1;
                }
                proof {
                    assert(nonlinear@.take(n as int) =~= nonlinear@);
                }
                Some(acc)
            },
            Expr::Min { a, b } => {
                let av = match a.eval(x) {
                    Some(v) => v,
                    None => {
                        return None;
                    },
                };
                let bv = match b.eval(x) {
                    Some(v) => v,
                    None => {
                        return None;
                    },
                };
                let small = match av.le(bv) {
                    Some(v) => v,
                    None => {
                        return None;
                    },
                };
                proof {
                    lemma_eval_wf(**a, x@);
                    lemma_eval_wf(**b, x@);
                    lemma_q_le_congr(av@, eval_spec(**a, x@), bv@, eval_spec(**b, x@));
                }
                if small {
                    Some(av)
                } else {
                    Some(bv)
                }
            },
        }
    }
}

/// The absolute tolerance to which `bisect` closes its bracket.
pub open spec fn tolerance() -> Q {
    Q { n: 1, d: 1000000000000 }
}

/// `l` is a lower bracket point of the fixed-point equation for `e`:
/// the equation's value at `l` still lies at or above the line `y = x`.
pub open spec fn lower_bracket(e: Expr, l: Q) -> bool {
    q_wf(l) && q_le(l, eval_spec(e, l))
}

impl Expr {
    /// Find an approximate fixed point of `eval(x) == x` by bisection.
    ///
    /// Under the (unchecked) assumption that `eval(x) - x` is monotonically
    /// non-increasing with a single positive crossing, the result is within
    /// the tolerance of the crossing. What is proved unconditionally: the
    /// result `v` is positive, the equation's value at `v` lies at or below
    /// `v`, and at most one tolerance below `v` there is a point where the
    /// value still lies at or above the line. `None` is returned when the
    /// bracket cannot be established within the iteration caps or the exact
    /// arithmetic leaves the machine range.
    #[verifier::loop_isolation(false)]
    pub fn bisect(&self) -> (r: Option<Rat>)
        requires
            self.wf(),
        ensures
            r matches Some(v) ==> {
                &&& v.wf()
                &&& q_lt(q_zero(), v@)
                &&& q_le(eval_spec(*self, v@), v@)
                &&& exists|l: Q|
                    #[trigger] lower_bracket(*self, l) && q_le(l, v@) && q_le(
                        q_sub(v@, l),
                        tolerance(),
                    )
            },
    {
        let half = Rat::new(1, 2);
        let two = Rat::new(2, 1);
        let eps = Rat::new(1, 1000000000000);
        // Bracket downward: find lo with eval(lo) >= lo.
        let mut lo = half;
        let mut found_lo = false;
        let mut i: usize = 0;
        while i < 600 && !found_lo
            invariant
                lo.wf(),
                q_lt(q_zero(), lo@),
                q_le(lo@, half@),
                found_lo ==> q_le(lo@, eval_spec(*self, lo@)),
                i <= 600,
            decreases 600 - i,
        {
            let ev = match self.eval(&lo) {
                Some(v) => v,
                None => {
                    return None;
                },
            };
            let below = match ev.lt(lo) {
                Some(v) => v,
                None => {
                    return None;
                },
            };
            if below {
                let lo2 = match lo.mul(half) {
                    Some(v) => v,
                    None => {
                        return None;
                    },
                };
                proof {
                    lemma_q_half_step(lo@);
                    lemma_q_le_congr(q_zero(), q_zero(), lo2@, q_mul(lo@, half@));
                    lemma_q_le_congr(lo2@, q_mul(lo@, half@), half@, half@);
                }
                lo = lo2;
            } else {
                proof {
                    lemma_eval_wf(*self, lo@);
                    lemma_q_le_congr(lo@, lo@, ev@, eval_spec(*self, lo@));
                }
                found_lo = true;
            }
            i = i + 1;
        }
        if !found_lo {
            return None;
        }
        // Bracket upward: find hi with eval(hi) <= hi.
        let mut hi = Rat::new(1, 1);
        let mut found_hi = false;
        let mut j: usize = 0;
        while j < 600 && !found_hi
            invariant
                hi.wf(),
                q_le(q_int(1), hi@),
                found_hi ==> q_le(eval_spec(*self, hi@), hi@),
                j <= 600,
            decreases 600 - j,
        {
            let ev = match self.eval(&hi) {
                Some(v) => v,
                None => {
                    return None;
                },
            };
            let above = match hi.lt(ev) {
                Some(v) => v,
                None => {
                    return None;
                },
            };
            if above {
                let hi2 = match hi.mul(two) {
                    Some(v) => v,
                    None => {
                        return None;
                    },
                };
                proof {
                    lemma_q_double_step(hi@);
                    lemma_q_le_congr(q_int(1), q_int(1), hi2@, q_mul(hi@, two@));
                }
                hi = hi2;
            } else {
                proof {
                    lemma_eval_wf(*self, hi@);
                    lemma_q_le_congr(ev@, eval_spec(*self, hi@), hi@, hi@);
                }
                found_hi = true;
            }
            j = j + 1;
        }
        if !found_hi {
            return None;
        }
        proof {
            // lo <= 1/2 <= 1 <= hi
            lemma_q_le_trans(lo@, half@, q_int(1));
            lemma_q_le_trans(lo@, q_int(1), hi@);
        }
        // Close the bracket to within the tolerance.
        let mut k: usize = 0;
        let mut done = false;
        while k < 600 && !done
            invariant
                lo.wf(),
                hi.wf(),
                q_lt(q_zero(), lo@),
                q_le(lo@, hi@),
                q_le(lo@, eval_spec(*self, lo@)),
                q_le(eval_spec(*self, hi@), hi@),
                done ==> q_le(q_sub(hi@, lo@), tolerance()),
                k <= 600,
            decreases 600 - k,
        {
            let diff = match hi.sub(lo) {
                Some(v) => v,
                None => {
                    return None;
                },
            };
            let small = match diff.le(eps) {
                Some(v) => v,
                None => {
                    return None;
                },
            };
            if small {
                proof {
                    lemma_q_add_wf(hi@, q_neg(lo@));
                    lemma_q_le_congr(diff@, q_sub(hi@, lo@), eps@, eps@);
                }
                done = true;
            } else {
                let sum = match hi.add(lo) {
                    Some(v) => v,
                    None => {
                        return None;
                    },
                };
                let mid = match sum.mul(half) {
                    Some(v) => v,
                    None => {
                        return None;
                    },
                };
                proof {
                    lemma_q_mid(lo@, hi@);
                    lemma_q_add_wf(hi@, lo@);
                    lemma_q_add_wf(q_add(hi@, lo@), half@);
                    lemma_q_mul_congr(sum@, q_add(hi@, lo@), half@, half@);
                    lemma_q_eq_trans(mid@, q_mul(sum@, half@), q_mul(q_add(hi@, lo@), half@));
                    lemma_q_le_congr(lo@, lo@, mid@, q_mul(q_add(hi@, lo@), half@));
                    lemma_q_le_congr(mid@, q_mul(q_add(hi@, lo@), half@), hi@, hi@);
                }
                let ev = match self.eval(&mid) {
                    Some(v) => v,
                    None => {
                        return None;
                    },
                };
                let below = match ev.lt(mid) {
                    Some(v) => v,
                    None => {
                        return None;
                    },
                };
                proof {
                    lemma_eval_wf(*self, mid@);
                    lemma_q_le_congr(ev@, eval_spec(*self, mid@), mid@, mid@);
                    lemma_q_le_congr(mid@, mid@, ev@, eval_spec(*self, mid@));
                }
                if below {
                    hi = mid;
                } else {
                    proof {
                        lemma_q_lt_le_trans(q_zero(), lo@, mid@);
                    }
                    lo = mid;
                }
            }
            k = k + 1;
        }
        if !done {
            return None;
        }
        proof {
            lemma_q_lt_le_trans(q_zero(), lo@, hi@);
            assert(lower_bracket(*self, lo@));
        }
        Some(hi)
    }
}

/// A residual bound for a closed bisection bracket. `bisect` establishes
/// a lower point `l` within the tolerance of the returned `v`, with the
/// equation's value at or above the line at `l` and at or below it at `v`.
/// If, in addition, the value falls from `l` to `v` by at most `slope`
/// times the bracket's width, then the value at `v` is below `v` by at
/// most `1 + slope` times the tolerance — the residual bound that
/// bisection owes on equations whose value cannot fall faster than
/// `slope`.
pub proof fn lemma_bisect_residual(e: Expr, v: Q, l: Q, slope: Q)
    requires
        e.wf(),
        q_wf(v),
        q_wf(l),
        q_wf(slope),
        q_le(q_zero(), slope),
        q_le(l, v),
        q_le(q_sub(v, l), tolerance()),
        q_le(l, eval_spec(e, l)),
        q_le(eval_spec(e, v), v),
        q_le(q_sub(eval_spec(e, l), eval_spec(e, v)), q_mul(slope, q_sub(v, l))),
    ensures
        q_le(q_sub(v, eval_spec(e, v)), q_mul(q_add(q_int(1), slope), tolerance())),
{
    let el = eval_spec(e, l);
    let ev = eval_spec(e, v);
    let tol = tolerance();
    lemma_eval_wf(e, l);
    lemma_eval_wf(e, v);
    // v <= l + tol <= el + tol
    lemma_q_sub_le_shift(v, l, tol);
    lemma_q_add_mono(l, el, tol);
    lemma_q_add_wf(l, tol);
    lemma_q_add_wf(el, tol);
    lemma_q_le_trans(v, q_add(l, tol), q_add(el, tol));
    // el <= ev + slope * tol
    lemma_q_add_wf(v, q_neg(l));
    lemma_q_mul_mono(q_sub(v, l), tol, slope);
    lemma_q_add_wf(slope, q_sub(v, l));
    lemma_q_add_wf(slope, tol);
    lemma_q_add_wf(el, q_neg(ev));
    lemma_q_le_trans(q_sub(el, ev), q_mul(slope, q_sub(v, l)), q_mul(slope, tol));
    lemma_q_sub_le_shift(el, ev, q_mul(slope, tol));
    // v <= (ev + slope * tol) + tol
    lemma_q_add_wf(ev, q_mul(slope, tol));
    lemma_q_add_mono(el, q_add(ev, q_mul(slope, tol)), tol);
    lemma_q_add_wf(q_add(ev, q_mul(slope, tol)), tol);
    lemma_q_le_trans(v, q_add(el, tol), q_add(q_add(ev, q_mul(slope, tol)), tol));
    // regroup the bound as ev + (1 + slope) * tol
    lemma_q_add_assoc(ev, q_mul(slope, tol), tol);
    lemma_q_add_wf(q_mul(slope, tol), tol);
    lemma_q_add_wf(ev, q_add(q_mul(slope, tol), tol));
    lemma_q_add_comm(q_mul(slope, tol), tol);
    lemma_q_add_wf(tol, q_mul(slope, tol));
    lemma_q_add_congr(ev, ev, q_add(q_mul(slope, tol), tol), q_add(tol, q_mul(slope, tol)));
    lemma_q_distr_r(q_int(1), slope, tol);
    assert(q_mul(q_int(1), tol) == tol);
    lemma_q_add_wf(q_int(1), slope);
    lemma_q_add_wf(q_add(q_int(1), slope), tol);
    lemma_q_add_congr(
        ev,
        ev,
        q_add(tol, q_mul(slope, tol)),
        q_mul(q_add(q_int(1), slope), tol),
    );
    lemma_q_add_wf(ev, q_add(tol, q_mul(slope, tol)));
    lemma_q_add_wf(ev, q_mul(q_add(q_int(1), slope), tol));
    lemma_q_eq_trans(
        q_add(q_add(ev, q_mul(slope, tol)), tol),
        q_add(ev, q_add(q_mul(slope, tol), tol)),
        q_add(ev, q_add(tol, q_mul(slope, tol))),
    );
    lemma_q_eq_trans(
        q_add(q_add(ev, q_mul(slope, tol)), tol),
        q_add(ev, q_add(tol, q_mul(slope, tol))),
        q_add(ev, q_mul(q_add(q_int(1), slope), tol)),
    );
    lemma_q_le_congr(
        v,
        v,
        q_add(q_add(ev, q_mul(slope, tol)), tol),
        q_add(ev, q_mul(q_add(q_int(1), slope), tol)),
    );
    lemma_q_sub_le_shift(v, ev, q_mul(q_add(q_int(1), slope), tol));
}

} // verus!
