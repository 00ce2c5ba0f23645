//! The position solver: enumerates board positions and die outcomes,
//! builds one self-referential equation per query out of the expression
//! algebra, solves it by bisection, and memoizes solved position values.

use vstd::prelude::*;
use crate::rat::Q;
use crate::rat::Rat;
use crate::rat::q_wf;
use crate::rat::q_lt;
use crate::rat::q_le;
use crate::rat::q_zero;
use crate::rat::q_eq;
use crate::rat::q_add;
use crate::rat::q_sub;
use crate::rat::q_mul;
use crate::rat::q_min;
use crate::rat::q_int;
use crate::rat::q_recip;
use crate::rat::lemma_q_eq_trans;
use crate::rat::lemma_q_add_zero;
use crate::rat::lemma_q_add_assoc;
use crate::rat::lemma_q_add_congr;
use crate::rat::lemma_q_mul_congr;
use crate::rat::lemma_q_min_congr;
use crate::rat::lemma_q_min_le;
use crate::rat::lemma_q_le_congr;
use crate::rat::lemma_q_le_trans;
use crate::rat::lemma_q_add_wf;
use crate::rat::lemma_q_sub_le_shift;
use crate::rat::lemma_q_add_mono;
use crate::rat::lemma_q_nonneg;
use crate::rat::lemma_q_le_self_add;
use crate::expr::Expr;
use crate::expr::eval_spec;
use crate::expr::lemma_eval_wf;
use crate::expr::lower_bracket;
use crate::expr::tolerance;

verus! {

/// A transient game state: the position the turn started from, the current
/// position, and the pending die outcome if one has been rolled.
pub struct State {
    pub original_pos: u32,
    pub pos: u32,
    pub dice: Option<u32>,
}

impl State {
    /// A resting state at `original_pos`: about to roll, nothing pending.
    pub fn new(original_pos: u32) -> (s: State)
        ensures
            s.original_pos == original_pos,
            s.pos == original_pos,
            s.dice is None,
    {
        State { original_pos, pos: original_pos, dice: None }
    }

    /// Roll the face `dice`: move to mid-roll at `original_pos + dice`.
    pub fn dice(&self, dice: u32) -> (s: State)
        requires
            self.original_pos + dice <= u32::MAX,
        ensures
            s.original_pos == self.original_pos,
            s.pos == self.original_pos + dice,
            s.dice == Some(dice),
    {
        State {
            original_pos: self.original_pos,
            pos: self.original_pos + dice,
            dice: Some(dice),
        }
    }

    /// A further successful continuation: advance by the pending die value
    /// again, staying mid-roll.
    pub fn go_success(&self) -> (s: State)
        requires
            self.dice matches Some(d) && self.pos + d <= u32::MAX,
        ensures
            s.original_pos == self.original_pos,
            self.dice matches Some(d) && s.pos == self.pos + d,
            s.dice == self.dice,
    {
        State {
            original_pos: self.original_pos,
            pos: self.pos + self.dice.unwrap(),
            dice: self.dice,
        }
    }

    /// Bank the progress: rest at the current position.
    pub fn stop(&self) -> (s: State)
        ensures
            s.original_pos == self.pos,
            s.pos == self.pos,
            s.dice is None,
    {
        State { original_pos: self.pos, pos: self.pos, dice: None }
    }
}

/// The recursion measure: how far `pos` still is from `goal`.
pub open spec fn dist(goal: int, pos: int) -> int {
    if pos <= goal {
        goal - pos
    } else {
        0
    }
}

/// The rational value memoized at `pos`, as a mathematical rational;
/// zero where nothing is stored (never read in that case).
pub open spec fn memo_q(mem: Seq<Option<Rat>>, pos: int) -> Q {
    if 0 <= pos < mem.len() && mem[pos] is Some {
        mem[pos].unwrap()@
    } else {
        q_zero()
    }
}

/// The mid-roll equation's value at `x`, read over a memo table: zero at
/// or past the goal; otherwise the better of continuing (a further success
/// with probability `1/dice`, else a forfeit costing the self-referential
/// restart value `x` plus the turn spent) and banking at the memoized
/// value of the landing position.
pub open spec fn mid_roll_value(
    mem: Seq<Option<Rat>>,
    dice: int,
    goal: int,
    pos: int,
    d: int,
    x: Q,
) -> Q
    decreases dist(goal, pos),
{
    if pos >= goal || d < 1 {
        q_zero()
    } else {
        q_min(
            q_add(
                q_mul(mid_roll_value(mem, dice, goal, pos + d, d, x), q_recip(q_int(dice))),
                q_mul(Q { n: dice - 1, d: dice }, q_add(x, q_int(1))),
            ),
            memo_q(mem, pos),
        )
    }
}

/// Every memo entry that the mid-roll equation for `(pos, d)` reads is
/// filled.
pub open spec fn chain_filled(mem: Seq<Option<Rat>>, goal: int, pos: int, d: int) -> bool
    decreases dist(goal, pos),
{
    if pos >= goal || d < 1 {
        true
    } else {
        &&& 0 <= pos < mem.len()
        &&& mem[pos] is Some
        &&& chain_filled(mem, goal, pos + d, d)
    }
}

/// The mid-roll equation's value is a well-formed rational wherever the
/// memoized values are.
pub proof fn lemma_mid_roll_value_wf(
    mem: Seq<Option<Rat>>,
    dice: int,
    goal: int,
    pos: int,
    d: int,
    x: Q,
)
    requires
        q_wf(x),
        1 <= dice,
        forall|p: int|
            0 <= p < mem.len() ==> ((#[trigger] mem[p]) matches Some(v) ==> v.wf()),
    ensures
        q_wf(mid_roll_value(mem, dice, goal, pos, d, x)),
    decreases dist(goal, pos),
{
    if pos >= goal || d < 1 {
    } else {
        lemma_mid_roll_value_wf(mem, dice, goal, pos + d, d, x);
        lemma_q_add_wf(mid_roll_value(mem, dice, goal, pos + d, d, x), q_recip(q_int(dice)));
        lemma_q_add_wf(x, q_int(1));
        lemma_q_add_wf(Q { n: dice - 1, d: dice }, q_add(x, q_int(1)));
        lemma_q_add_wf(
            q_mul(mid_roll_value(mem, dice, goal, pos + d, d, x), q_recip(q_int(dice))),
            q_mul(Q { n: dice - 1, d: dice }, q_add(x, q_int(1))),
        );
    }
}

/// The sum of the first `dmax` die faces' mid-roll equations, each taken
/// with probability `1 / dice`.
pub open spec fn resting_sum(
    mem: Seq<Option<Rat>>,
    dice: int,
    goal: int,
    pos: int,
    dmax: int,
    x: Q,
) -> Q
    decreases dmax,
{
    if dmax < 1 {
        q_zero()
    } else {
        q_add(
            resting_sum(mem, dice, goal, pos, dmax - 1, x),
            q_mul(mid_roll_value(mem, dice, goal, pos + dmax, dmax, x), q_recip(q_int(dice))),
        )
    }
}

/// The resting equation's value at `x`: one turn spent, plus the average
/// of the die faces' mid-roll equations.
pub open spec fn resting_value(mem: Seq<Option<Rat>>, dice: int, goal: int, pos: int, x: Q) -> Q {
    q_add(q_int(1), resting_sum(mem, dice, goal, pos, dice, x))
}

proof fn lemma_resting_sum_wf(
    mem: Seq<Option<Rat>>,
    dice: int,
    goal: int,
    pos: int,
    dmax: int,
    x: Q,
)
    requires
        q_wf(x),
        1 <= dice,
        forall|p: int| 0 <= p < mem.len() ==> ((#[trigger] mem[p]) matches Some(v) ==> v.wf()),
    ensures
        q_wf(resting_sum(mem, dice, goal, pos, dmax, x)),
    decreases dmax,
{
    if dmax < 1 {
    } else {
        lemma_resting_sum_wf(mem, dice, goal, pos, dmax - 1, x);
        lemma_mid_roll_value_wf(mem, dice, goal, pos + dmax, dmax, x);
        lemma_q_add_wf(mid_roll_value(mem, dice, goal, pos + dmax, dmax, x), q_recip(q_int(dice)));
        lemma_q_add_wf(
            resting_sum(mem, dice, goal, pos, dmax - 1, x),
            q_mul(mid_roll_value(mem, dice, goal, pos + dmax, dmax, x), q_recip(q_int(dice))),
        );
    }
}

/// At a non-negative `x` the mid-roll equation's value is non-negative,
/// since every memoized value is.
proof fn lemma_mid_roll_nonneg(
    mem: Seq<Option<Rat>>,
    dice: int,
    goal: int,
    pos: int,
    d: int,
    x: Q,
)
    requires
        q_wf(x),
        q_le(q_zero(), x),
        1 <= dice,
        forall|p: int|
            0 <= p < mem.len() ==> ((#[trigger] mem[p]) matches Some(v) ==> v.wf() && q_le(
                q_zero(),
                v@,
            )),
    ensures
        q_le(q_zero(), mid_roll_value(mem, dice, goal, pos, d, x)),
    decreases dist(goal, pos),
{
    if pos >= goal || d < 1 {
    } else {
        lemma_mid_roll_nonneg(mem, dice, goal, pos + d, d, x);
        assert forall|p: int|
            0 <= p < mem.len() implies ((#[trigger] mem[p]) matches Some(v) ==> v.wf()) by {}
        lemma_mid_roll_value_wf(mem, dice, goal, pos + d, d, x);
        let mrv = mid_roll_value(mem, dice, goal, pos + d, d, x);
        let rc = q_recip(q_int(dice));
        let fr = Q { n: dice - 1, d: dice };
        let x1 = q_add(x, q_int(1));
        lemma_q_add_wf(x, q_int(1));
        lemma_q_nonneg(x, q_int(1));
        lemma_q_nonneg(mrv, rc);
        lemma_q_nonneg(fr, x1);
        lemma_q_add_wf(mrv, rc);
        lemma_q_add_wf(fr, x1);
        lemma_q_nonneg(q_mul(mrv, rc), q_mul(fr, x1));
    }
}

/// At a non-negative `x` the resting equation's die-face sum is
/// non-negative.
proof fn lemma_resting_sum_nonneg(
    mem: Seq<Option<Rat>>,
    dice: int,
    goal: int,
    pos: int,
    dmax: int,
    x: Q,
)
    requires
        q_wf(x),
        q_le(q_zero(), x),
        1 <= dice,
        forall|p: int|
            0 <= p < mem.len() ==> ((#[trigger] mem[p]) matches Some(v) ==> v.wf() && q_le(
                q_zero(),
                v@,
            )),
    ensures
        q_le(q_zero(), resting_sum(mem, dice, goal, pos, dmax, x)),
    decreases dmax,
{
    if dmax < 1 {
    } else {
        lemma_resting_sum_nonneg(mem, dice, goal, pos, dmax - 1, x);
        lemma_mid_roll_nonneg(mem, dice, goal, pos + dmax, dmax, x);
        assert forall|p: int|
            0 <= p < mem.len() implies ((#[trigger] mem[p]) matches Some(v) ==> v.wf()) by {}
        lemma_mid_roll_value_wf(mem, dice, goal, pos + dmax, dmax, x);
        lemma_resting_sum_wf(mem, dice, goal, pos, dmax - 1, x);
        let mrv = mid_roll_value(mem, dice, goal, pos + dmax, dmax, x);
        let rc = q_recip(q_int(dice));
        lemma_q_nonneg(mrv, rc);
        lemma_q_add_wf(mrv, rc);
        lemma_q_nonneg(resting_sum(mem, dice, goal, pos, dmax - 1, x), q_mul(mrv, rc));
    }
}

/// The mid-roll equation reads only filled memo entries, so a table that
/// keeps every filled entry gives it the same value.
proof fn lemma_mid_roll_frame(
    m1: Seq<Option<Rat>>,
    m2: Seq<Option<Rat>>,
    dice: int,
    goal: int,
    pos: int,
    d: int,
    x: Q,
)
    requires
        m1.len() == m2.len(),
        chain_filled(m1, goal, pos, d),
        forall|p: int| 0 <= p < m1.len() && (#[trigger] m1[p]) is Some ==> m2[p] == m1[p],
    ensures
        mid_roll_value(m2, dice, goal, pos, d, x) == mid_roll_value(m1, dice, goal, pos, d, x),
        chain_filled(m2, goal, pos, d),
    decreases dist(goal, pos),
{
    if pos >= goal || d < 1 {
    } else {
        lemma_mid_roll_frame(m1, m2, dice, goal, pos + d, d, x);
        assert(m2[pos] == m1[pos]);
        assert(memo_q(m2, pos) == memo_q(m1, pos));
    }
}

/// The same framing for the resting equation's sum of die faces.
proof fn lemma_resting_sum_frame(
    m1: Seq<Option<Rat>>,
    m2: Seq<Option<Rat>>,
    dice: int,
    goal: int,
    pos: int,
    dmax: int,
    x: Q,
)
    requires
        m1.len() == m2.len(),
        forall|dd: int| 1 <= dd <= dmax ==> #[trigger] chain_filled(m1, goal, pos + dd, dd),
        forall|p: int| 0 <= p < m1.len() && (#[trigger] m1[p]) is Some ==> m2[p] == m1[p],
    ensures
        resting_sum(m2, dice, goal, pos, dmax, x) == resting_sum(m1, dice, goal, pos, dmax, x),
        forall|dd: int| 1 <= dd <= dmax ==> #[trigger] chain_filled(m2, goal, pos + dd, dd),
    decreases dmax,
{
    if dmax < 1 {
        assert forall|dd: int| 1 <= dd <= dmax implies #[trigger] chain_filled(m2, goal, pos + dd, dd) by {}
    } else {
        lemma_resting_sum_frame(m1, m2, dice, goal, pos, dmax - 1, x);
        lemma_mid_roll_frame(m1, m2, dice, goal, pos + dmax, dmax, x);
        assert forall|dd: int| 1 <= dd <= dmax implies #[trigger] chain_filled(m2, goal, pos + dd, dd) by {
            if dd < dmax {
                assert(chain_filled(m2, goal, pos + dd, dd));
            }
        }
    }
}

/// The position solver: the game configuration plus the memo table of
/// solved resting positions.
pub struct Solver {
    /// Number of die faces; at least one.
    pub dice: u32,
    /// The finish line.
    pub goal: u32,
    /// The memo table: one slot per position below the goal.
    pub mem: Vec<Option<Rat>>,
}

impl Solver {
    /// The configuration is sane and every memoized value is a positive
    /// well-formed rational.
    pub open spec fn wf(self) -> bool {
        &&& 1 <= self.dice
        &&& self.goal + self.dice <= u32::MAX
        &&& self.mem@.len() == self.goal
        &&& forall|p: int|
            0 <= p < self.mem@.len() ==> ((#[trigger] self.mem@[p]) matches Some(v) ==> v.wf()
                && q_lt(q_zero(), v@) && q_le(q_int(1), v@))
    }

    /// The memo table only ever gains entries; solved values never change.
    pub open spec fn extends(self, pre: Solver) -> bool {
        &&& self.dice == pre.dice
        &&& self.goal == pre.goal
        &&& forall|p: int|
            0 <= p < pre.mem@.len() && (#[trigger] pre.mem@[p]) is Some ==> self.mem@[p]
                == pre.mem@[p]
    }

    /// A fresh solver for `dice` die faces and finish line `goal`, with an
    /// empty memo table.
    #[verifier::loop_isolation(false)]
    pub fn new(dice: u32, goal: u32) -> (s: Solver)
        requires
            1 <= dice,
            goal + dice <= u32::MAX,
        ensures
            s.wf(),
            s.dice == dice,
            s.goal == goal,
            forall|p: int| 0 <= p < goal ==> (#[trigger] s.mem@[p]) is None,
    {
        let mut mem: Vec<Option<Rat>> = Vec::new();
        let mut i: usize = 0;
        let n = goal as usize;
        while i < n
            invariant
                i <= n,
                mem@.len() == i,
                forall|p: int| 0 <= p < i ==> (#[trigger] mem@[p]) is None,
            decreases n - i,
        {
            mem.push(None);
            i = i + 1;
        }
        Solver { dice, goal, mem }
    }

    /// The minimum expected number of turns to finish from a resting
    /// position `n` under the optimal policy: zero at or past the goal,
    /// strictly positive otherwise. `None` when the exact arithmetic leaves
    /// the machine range.
    pub fn solve(&mut self, n: u32) -> (r: Option<Rat>)
        requires
            old(self).wf(),
        ensures
            final(self).wf(),
            final(self).extends(*old(self)),
            r matches Some(v) ==> {
                &&& v.wf()
                &&& n >= old(self).goal ==> v@ == q_zero()
                &&& n < old(self).goal ==> q_lt(q_zero(), v@) && final(self).mem@[n as int]
                    == Some(v)
            },
            n >= old(self).goal ==> (r matches Some(v2) && v2@ == q_zero()),
            n < old(self).goal ==> (r matches Some(v4) ==> q_le(q_int(1), v4@)),
            n < old(self).goal ==> (old(self).mem@[n as int] matches Some(m) ==> r == Some(m)),
            n < old(self).goal && old(self).mem@[n as int] is None ==> (r matches Some(v3) ==> {
                &&& q_le(
                    resting_value(
                        final(self).mem@,
                        old(self).dice as int,
                        old(self).goal as int,
                        n as int,
                        v3@,
                    ),
                    v3@,
                )
                &&& exists|l: Q|
                    {
                        &&& q_wf(l)
                        &&& q_le(l, v3@)
                        &&& q_le(q_sub(v3@, l), tolerance())
                        &&& #[trigger] q_le(
                            l,
                            resting_value(
                                final(self).mem@,
                                old(self).dice as int,
                                old(self).goal as int,
                                n as int,
                                l,
                            ),
                        )
                    }
            }),
    {
        self.dfs_a(State::new(n))
    }

    /// The diagnostic pair for rolling `dice` from position `n`: the
    /// expected turns under the optimal go/stop choice, and the expected
    /// turns when forced to bank immediately.
    pub fn strategy(&mut self, n: u32, dice: u32) -> (r: Option<(Rat, Rat)>)
        requires
            old(self).wf(),
            1 <= dice <= old(self).dice,
            n + dice <= u32::MAX,
        ensures
            final(self).wf(),
            final(self).extends(*old(self)),
            r matches Some(t) ==> t.0.wf() && t.1.wf(),
            n + dice >= old(self).goal ==> (r matches Some(t2) && t2.0@ == q_zero() && t2.1@
                == q_zero()),
            n + dice < old(self).goal ==> (r matches Some(t3) ==> {
                &&& q_lt(q_zero(), t3.0@)
                &&& q_lt(q_zero(), t3.1@)
                &&& q_le(q_int(1), t3.1@)
                &&& q_le(t3.0@, q_add(t3.1@, tolerance()))
                &&& final(self).mem@[(n + dice) as int] == Some(t3.1)
            }),
    {
        if n + dice >= self.goal {
            // landing at or past the goal: continuing costs nothing more and
            // banking rests on a finished position, so both values are zero
            return Some((Rat::from_int(0), Rat::from_int(0)));
        }
        let state = State::new(n).dice(dice);
        let stop_s = match self.dfs_a(state.stop()) {
            Some(v) => v,
            None => {
                return None;
            },
        };
        let eq = match self.dfs_b(state) {
            Some(e) => e,
            None => {
                return None;
            },
        };
        let total_s = match eq.bisect() {
            Some(v) => v,
            None => {
                return None;
            },
        };
        proof {
            // the optimal total can exceed the banking value by at most
            // the bisection tolerance
            assert(self.mem@[state.pos as int] == Some(stop_s));
            let l = choose|l: Q|
                #[trigger] lower_bracket(eq, l) && q_le(l, total_s@) && q_le(
                    q_sub(total_s@, l),
                    tolerance(),
                );
            assert(q_le(eval_spec(eq, l), stop_s@));
            lemma_eval_wf(eq, l);
            lemma_q_le_trans(l, eval_spec(eq, l), stop_s@);
            lemma_q_sub_le_shift(total_s@, l, tolerance());
            lemma_q_add_mono(l, stop_s@, tolerance());
            lemma_q_add_wf(l, tolerance());
            lemma_q_add_wf(stop_s@, tolerance());
            lemma_q_le_trans(total_s@, q_add(l, tolerance()), q_add(stop_s@, tolerance()));
        }
        Some((total_s, stop_s))
    }

    /// The resting equation: one turn is spent, then each die face `d`
    /// contributes its mid-roll equation with probability `1 / dice`; the
    /// solved scalar is memoized per position.
    #[verifier::loop_isolation(false)]
    fn dfs_a(&mut self, state: State) -> (r: Option<Rat>)
        requires
            old(self).wf(),
            state.dice is None,
            state.pos == state.original_pos,
        ensures
            final(self).wf(),
            final(self).extends(*old(self)),
            r matches Some(v) ==> {
                &&& v.wf()
                &&& state.pos >= old(self).goal ==> v@ == q_zero()
                &&& state.pos < old(self).goal ==> q_lt(q_zero(), v@) && final(self).mem@[state.pos
                    as int] == Some(v)
            },
            state.pos >= old(self).goal ==> (r matches Some(v2) && v2@ == q_zero()),
            state.pos < old(self).goal ==> (r matches Some(v4) ==> q_le(q_int(1), v4@)),
            state.pos < old(self).goal ==> (old(self).mem@[state.pos as int] matches Some(m) ==> r
                == Some(m)),
            forall|p: int|
                0 <= p < state.pos ==> #[trigger] final(self).mem@[p] == old(self).mem@[p],
            state.pos < old(self).goal && old(self).mem@[state.pos as int] is None ==> (
            r matches Some(v3) ==> {
                &&& q_le(
                    resting_value(
                        final(self).mem@,
                        old(self).dice as int,
                        old(self).goal as int,
                        state.pos as int,
                        v3@,
                    ),
                    v3@,
                )
                &&& exists|l: Q|
                    {
                        &&& q_wf(l)
                        &&& q_le(l, v3@)
                        &&& q_le(q_sub(v3@, l), tolerance())
                        &&& #[trigger] q_le(
                            l,
                            resting_value(
                                final(self).mem@,
                                old(self).dice as int,
                                old(self).goal as int,
                                state.pos as int,
                                l,
                            ),
                        )
                    }
            }),
        decreases dist(old(self).goal as int, state.pos as int), 0int,
    {
        if state.pos >= self.goal {
            return Some(Rat::from_int(0));
        }
        let idx = state.pos as usize;
        match self.mem[idx] {
            Some(v) => {
                return Some(v);
            },
            None => {},
        }
        let mut s = Expr::constant(Rat::from_int(1));
        let dice_rat = Rat::new(self.dice as i64, 1);
        proof {
            assert(q_lt(q_zero(), dice_rat@));
        }
        let ghost gl = self.goal as int;
        let ghost di = self.dice as int;
        let ghost po = state.pos as int;
        proof {
            let one_r = q_int(1);
            assert forall|x: Q| q_wf(x) implies q_eq(
                #[trigger] eval_spec(s, x),
                q_add(q_int(1), resting_sum(self.mem@, di, gl, po, 0, x)),
            ) by {
                lemma_q_add_zero(one_r);
            }
        }
        let mut d: u32 = 1;
        while d <= self.dice
            invariant
                1 <= d,
                d <= self.dice + 1,
                s.wf(),
                self.wf(),
                self.extends(*old(self)),
                self.goal == old(self).goal,
                self.dice == old(self).dice,
                forall|p: int| 0 <= p <= po ==> #[trigger] self.mem@[p] == old(self).mem@[p],
                forall|dd: int|
                    1 <= dd < d ==> #[trigger] chain_filled(self.mem@, gl, po + dd, dd),
                forall|x: Q|
                    q_wf(x) ==> q_eq(
                        #[trigger] eval_spec(s, x),
                        q_add(q_int(1), resting_sum(self.mem@, di, gl, po, d - 1, x)),
                    ),
            decreases self.dice + 1 - d,
        {
            let ghost m1 = self.mem@;
            let ghost s_old = s;
            let sub = match self.dfs_b(state.dice(d)) {
                Some(e) => e,
                None => {
                    return None;
                },
            };
            let ghost m2 = self.mem@;
            let ghost gsub = sub;
            let scaled = match sub.div(dice_rat) {
                Some(e) => e,
                None => {
                    return None;
                },
            };
            let ghost gscaled = scaled;
            let s2 = match s.add(scaled) {
                Some(e) => e,
                None => {
                    return None;
                },
            };
            proof {
                let dd0 = d as int;
                assert forall|x: Q| q_wf(x) implies q_eq(
                    #[trigger] eval_spec(s2, x),
                    q_add(q_int(1), resting_sum(m2, di, gl, po, dd0, x)),
                ) by {
                    lemma_resting_sum_frame(m1, m2, di, gl, po, dd0 - 1, x);
                    let rs_prev = resting_sum(m2, di, gl, po, dd0 - 1, x);
                    let mrv = mid_roll_value(m2, di, gl, po + dd0, dd0, x);
                    let term = q_mul(mrv, q_recip(q_int(di)));
                    assert forall|p: int|
                        0 <= p < m2.len() implies ((#[trigger] m2[p]) matches Some(vv) ==> vv.wf()) by {}
                    lemma_resting_sum_wf(m2, di, gl, po, dd0 - 1, x);
                    lemma_mid_roll_value_wf(m2, di, gl, po + dd0, dd0, x);
                    lemma_q_add_wf(mrv, q_recip(q_int(di)));
                    lemma_eval_wf(gsub, x);
                    lemma_eval_wf(gscaled, x);
                    lemma_eval_wf(s_old, x);
                    // eval(scaled) ~ mid_roll_value / dice
                    assert(dice_rat@ == q_int(di));
                    assert(q_eq(eval_spec(gscaled, x), q_mul(eval_spec(gsub, x), q_recip(q_int(di)))));
                    lemma_q_add_wf(eval_spec(gsub, x), q_recip(q_int(di)));
                    lemma_q_mul_congr(eval_spec(gsub, x), mrv, q_recip(q_int(di)), q_recip(q_int(di)));
                    lemma_q_eq_trans(
                        eval_spec(gscaled, x),
                        q_mul(eval_spec(gsub, x), q_recip(q_int(di))),
                        term,
                    );
                    // eval(s2) ~ (1 + sum so far) + term ~ 1 + (sum so far + term)
                    lemma_q_add_congr(eval_spec(s_old, x), q_add(q_int(1), rs_prev), eval_spec(gscaled, x), term);
                    lemma_q_add_wf(q_int(1), rs_prev);
                    lemma_q_add_wf(eval_spec(s_old, x), eval_spec(gscaled, x));
                    lemma_q_add_wf(q_add(q_int(1), rs_prev), term);
                    lemma_eval_wf(s2, x);
                    lemma_q_add_assoc(q_int(1), rs_prev, term);
                    lemma_q_add_wf(rs_prev, term);
                    lemma_q_add_wf(q_int(1), q_add(rs_prev, term));
                    lemma_q_eq_trans(
                        eval_spec(s2, x),
                        q_add(eval_spec(s_old, x), eval_spec(gscaled, x)),
                        q_add(q_add(q_int(1), rs_prev), term),
                    );
                    lemma_q_eq_trans(
                        eval_spec(s2, x),
                        q_add(q_add(q_int(1), rs_prev), term),
                        q_add(q_int(1), q_add(rs_prev, term)),
                    );
                    assert(resting_sum(m2, di, gl, po, dd0, x) == q_add(rs_prev, term));
                }
                assert forall|dd: int|
                    1 <= dd < d + 1 implies #[trigger] chain_filled(self.mem@, gl, po + dd, dd) by {
                    if dd < d {
                        let x0 = q_zero();
                        lemma_resting_sum_frame(m1, m2, di, gl, po, d - 1, x0);
                    }
                }
            }
            s = s2;
            d = d + 1;
        }
        let v = match s.bisect() {
            Some(v) => v,
            None => {
                return None;
            },
        };
        let ghost m3 = self.mem@;
        proof {
            // one turn is always spent, so the solved value is at least one
            assert forall|p: int|
                0 <= p < m3.len() implies ((#[trigger] m3[p]) matches Some(vv) ==> vv.wf()
                    && q_le(q_zero(), vv@)) by {}
            assert(q_le(q_zero(), v@));
            lemma_resting_sum_nonneg(m3, di, gl, po, di, v@);
            lemma_resting_sum_wf(m3, di, gl, po, di, v@);
            lemma_q_le_self_add(q_int(1), resting_sum(m3, di, gl, po, di, v@));
            assert(q_eq(eval_spec(s, v@), resting_value(m3, di, gl, po, v@)));
            lemma_q_add_wf(q_int(1), resting_sum(m3, di, gl, po, di, v@));
            lemma_eval_wf(s, v@);
            lemma_q_le_congr(eval_spec(s, v@), resting_value(m3, di, gl, po, v@), v@, v@);
            lemma_q_le_trans(q_int(1), resting_value(m3, di, gl, po, v@), v@);
        }
        self.mem.set(idx, Some(v));
        proof {
            let m4 = self.mem@;
            // the entry at `idx` was still unfilled, so recording the solved
            // value only adds an entry and the equation keeps its meaning
            assert(m3[po] is None);
            assert forall|p: int| 0 <= p < m3.len() && (#[trigger] m3[p]) is Some implies m4[p]
                == m3[p] by {}
            // transfer the bisection bracket to the resting equation
            assert(d - 1 == di);
            lemma_resting_sum_frame(m3, m4, di, gl, po, di, v@);
            assert(q_eq(eval_spec(s, v@), q_add(q_int(1), resting_sum(m3, di, gl, po, di, v@))));
            assert(resting_sum(m4, di, gl, po, di, v@) == resting_sum(m3, di, gl, po, di, v@));
            assert(q_eq(eval_spec(s, v@), resting_value(m4, di, gl, po, v@)));
            assert forall|p: int|
                0 <= p < m4.len() implies ((#[trigger] m4[p]) matches Some(vv) ==> vv.wf()) by {}
            lemma_resting_sum_wf(m4, di, gl, po, di, v@);
            lemma_q_add_wf(q_int(1), resting_sum(m4, di, gl, po, di, v@));
            lemma_eval_wf(s, v@);
            lemma_q_le_congr(eval_spec(s, v@), resting_value(m4, di, gl, po, v@), v@, v@);
            let l = choose|l: Q|
                #[trigger] lower_bracket(s, l) && q_le(l, v@) && q_le(q_sub(v@, l), tolerance());
            lemma_resting_sum_frame(m3, m4, di, gl, po, di, l);
            assert(q_eq(eval_spec(s, l), resting_value(m4, di, gl, po, l)));
            lemma_resting_sum_wf(m4, di, gl, po, di, l);
            lemma_q_add_wf(q_int(1), resting_sum(m4, di, gl, po, di, l));
            lemma_eval_wf(s, l);
            lemma_q_le_congr(l, l, eval_spec(s, l), resting_value(m4, di, gl, po, l));
            assert(q_le(l, resting_value(m4, di, gl, po, l)));
        }
        Some(v)
    }

    /// The mid-roll equation at the landing position: the minimum of
    /// continuing (a further success with probability `1 / dice`, else a
    /// forfeit that restarts at the self-referential overall value plus the
    /// turn spent) and banking at the solved resting value.
    fn dfs_b(&mut self, state: State) -> (r: Option<Expr>)
        requires
            old(self).wf(),
            state.dice matches Some(d) && 1 <= d && d <= old(self).dice,
        ensures
            final(self).wf(),
            final(self).extends(*old(self)),
            r matches Some(e) ==> e.wf() && (state.pos < old(self).goal ==> (final(self).mem@[
            state.pos as int] matches Some(m) && forall|x: Q|
                q_wf(x) ==> q_le(#[trigger] eval_spec(e, x), m@))),
            state.pos >= old(self).goal ==> (r matches Some(e2) && forall|x: Q|
                q_wf(x) ==> q_eq(#[trigger] eval_spec(e2, x), q_zero())),
            r matches Some(e3) ==> forall|x: Q|
                q_wf(x) ==> q_eq(
                    #[trigger] eval_spec(e3, x),
                    mid_roll_value(
                        final(self).mem@,
                        old(self).dice as int,
                        old(self).goal as int,
                        state.pos as int,
                        state.dice.unwrap() as int,
                        x,
                    ),
                ),
            r is Some ==> chain_filled(
                final(self).mem@,
                old(self).goal as int,
                state.pos as int,
                state.dice.unwrap() as int,
            ),
            forall|p: int|
                0 <= p < state.pos ==> #[trigger] final(self).mem@[p] == old(self).mem@[p],
        decreases dist(old(self).goal as int, state.pos as int), 1int,
    {
        if state.pos >= self.goal {
            return Some(Expr::constant(Rat::from_int(0)));
        }
        let stop = match self.dfs_a(state.stop()) {
            Some(v) => v,
            None => {
                return None;
            },
        };
        let go_success = match self.dfs_b(state.go_success()) {
            Some(e) => e,
            None => {
                return None;
            },
        };
        let dice_rat = Rat::new(self.dice as i64, 1);
        let frac = Rat::new((self.dice - 1) as i64, self.dice as i64);
        proof {
            assert(q_lt(q_zero(), dice_rat@));
            assert(q_le(q_zero(), frac@));
        }
        let sc = Expr::self_consistent(Rat::from_int(1));
        let c1 = Expr::constant(Rat::from_int(1));
        let ghost gsc = sc;
        let ghost gc1 = c1;
        let base = match sc.add(c1) {
            Some(e) => e,
            None => {
                return None;
            },
        };
        let ghost ggs = go_success;
        let cont = match go_success.div(dice_rat) {
            Some(e) => e,
            None => {
                return None;
            },
        };
        let fail = match base.mul(frac) {
            Some(e) => e,
            None => {
                return None;
            },
        };
        let ghost gcont = cont;
        let ghost gfail = fail;
        let go = match cont.add(fail) {
            Some(e) => e,
            None => {
                return None;
            },
        };
        let stopc = Expr::constant(stop);
        let ghost ggo = go;
        let ghost gstopc = stopc;
        let r = go.min(stopc);
        proof {
            // the banking value was memoized by `dfs_a` above, and later
            // recursion only ever extends the memo table
            assert(self.mem@[state.pos as int] == Some(stop));
            assert forall|x: Q| q_wf(x) implies q_le(#[trigger] eval_spec(r, x), stop@) by {
                lemma_eval_wf(ggo, x);
                lemma_eval_wf(gstopc, x);
                lemma_eval_wf(r, x);
                lemma_q_min_le(eval_spec(ggo, x), eval_spec(gstopc, x));
                lemma_q_le_congr(eval_spec(r, x), eval_spec(r, x), eval_spec(gstopc, x), stop@);
            }
            let mem = self.mem@;
            let di = self.dice as int;
            let gl = self.goal as int;
            let po = state.pos as int;
            let dd = state.dice.unwrap() as int;
            assert(chain_filled(mem, gl, po, dd));
            assert forall|x: Q| q_wf(x) implies q_eq(
                #[trigger] eval_spec(r, x),
                mid_roll_value(mem, di, gl, po, dd, x),
            ) by {
                let qd = q_int(di);
                let rc = q_recip(qd);
                let fr = Q { n: di - 1, d: di };
                let x1 = q_add(x, q_int(1));
                let vs = mid_roll_value(mem, di, gl, po + dd, dd, x);
                let spec_go = q_add(q_mul(vs, rc), q_mul(fr, x1));
                assert forall|p: int|
                    0 <= p < mem.len() implies ((#[trigger] mem[p]) matches Some(v) ==> v.wf()) by {}
                lemma_mid_roll_value_wf(mem, di, gl, po + dd, dd, x);
                lemma_eval_wf(ggs, x);
                lemma_eval_wf(gsc, x);
                lemma_eval_wf(gc1, x);
                lemma_eval_wf(base, x);
                lemma_eval_wf(gcont, x);
                lemma_eval_wf(gfail, x);
                lemma_eval_wf(ggo, x);
                lemma_eval_wf(gstopc, x);
                lemma_q_add_wf(x, q_int(1));
                lemma_q_add_wf(vs, rc);
                lemma_q_add_wf(fr, x1);
                lemma_q_add_wf(q_mul(vs, rc), q_mul(fr, x1));
                // the continuation branch: eval(cont) ~ vs / dice
                assert(dice_rat@ == qd);
                assert(q_eq(eval_spec(gcont, x), q_mul(eval_spec(ggs, x), rc)));
                lemma_q_add_wf(eval_spec(ggs, x), rc);
                lemma_q_mul_congr(eval_spec(ggs, x), vs, rc, rc);
                lemma_q_eq_trans(eval_spec(gcont, x), q_mul(eval_spec(ggs, x), rc), q_mul(vs, rc));
                // the forfeit branch: eval(fail) ~ (dice-1)/dice * (x + 1)
                assert(q_mul(q_int(1), x) == x);
                assert(q_eq(eval_spec(gsc, x), x));
                assert(q_eq(eval_spec(gc1, x), q_int(1)));
                lemma_q_add_congr(eval_spec(gsc, x), x, eval_spec(gc1, x), q_int(1));
                lemma_q_add_wf(eval_spec(gsc, x), eval_spec(gc1, x));
                lemma_q_eq_trans(
                    eval_spec(base, x),
                    q_add(eval_spec(gsc, x), eval_spec(gc1, x)),
                    x1,
                );
                assert(frac@ == fr);
                lemma_q_mul_congr(fr, fr, eval_spec(base, x), x1);
                lemma_q_add_wf(fr, eval_spec(base, x));
                lemma_q_eq_trans(eval_spec(gfail, x), q_mul(fr, eval_spec(base, x)), q_mul(fr, x1));
                // the whole continuation value
                lemma_q_add_congr(eval_spec(gcont, x), q_mul(vs, rc), eval_spec(gfail, x), q_mul(fr, x1));
                lemma_q_add_wf(eval_spec(gcont, x), eval_spec(gfail, x));
                lemma_q_eq_trans(
                    eval_spec(ggo, x),
                    q_add(eval_spec(gcont, x), eval_spec(gfail, x)),
                    spec_go,
                );
                // the banking value is the memoized one
                assert(memo_q(mem, po) == stop@);
                assert(q_eq(eval_spec(gstopc, x), memo_q(mem, po)));
                // and the minimum matches the equation
                lemma_q_min_congr(eval_spec(ggo, x), spec_go, eval_spec(gstopc, x), memo_q(mem, po));
                assert(mid_roll_value(mem, di, gl, po, dd, x) == q_min(spec_go, memo_q(mem, po)));
            }
        }
        Some(r)
    }
}

} // verus!
