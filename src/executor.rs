//! The run of one test: the plan of steps, tick by tick, and the tally of
//! assertion results.
//!
//! A run clears the cleanup region (when there is one), freezes the clock,
//! visits every tick from 0 to the last action tick, executing that tick's
//! actions in declaration order and then advancing one tick unless it is the
//! last, unfreezes the clock and clears the region again. A failed assertion
//! is counted and the run goes on.

use vstd::prelude::*;
use crate::actions::{action_commands, action_fits, commands_for, AssertionFailure};
use crate::test_spec::{last_tick, lemma_last_tick_is_max, Action, ActionType, TestSpec};

verus! {

/// The command that freezes the simulation clock.
pub const FREEZE_COMMAND: &'static str = "tick freeze";

/// The command that lets the simulation clock run again.
pub const UNFREEZE_COMMAND: &'static str = "tick unfreeze";

/// The pause after clearing the cleanup region, in milliseconds.
pub const CLEANUP_DELAY_MS: u64 = 200;

/// The pause after a placement, fill or removal, in milliseconds.
pub const ACTION_DELAY_MS: u64 = 100;

/// The pause after each block of a burst placement, in milliseconds.
pub const PLACE_EACH_DELAY_MS: u64 = 10;

/// One step of a run.
#[derive(Clone, Copy, Debug, PartialEq, Eq, Structural)]
pub enum Step {
    /// Clear the cleanup region to air.
    ClearRegion,
    /// Freeze the simulation clock.
    FreezeClock,
    /// The run is now at this tick.
    BeginTick(u32),
    /// Execute the action at this index of the test's actions.
    Execute(usize),
    /// Advance the clock by exactly one tick.
    AdvanceTick,
    /// Let the clock run again.
    UnfreezeClock,
}

/// The actions among the first `k` that fire at tick `t`, in declaration
/// order.
pub open spec fn bucket(actions: Seq<Action>, t: nat, k: int) -> Seq<Step>
    decreases k,
{
    if k <= 0 {
        seq![]
    } else if actions[k - 1].tick == t {
        bucket(actions, t, k - 1).push(Step::Execute((k - 1) as usize))
    } else {
        bucket(actions, t, k - 1)
    }
}

/// The steps of tick `t` in a timeline that ends at tick `last`.
pub open spec fn tick_steps(actions: Seq<Action>, t: nat, last: nat) -> Seq<Step> {
    seq![Step::BeginTick(t as u32)] + bucket(actions, t, actions.len() as int) + if t < last {
        seq![Step::AdvanceTick]
    } else {
        seq![]
    }
}

/// The steps of the first `n` ticks of a timeline that ends at `last`.
pub open spec fn timeline(actions: Seq<Action>, last: nat, n: nat) -> Seq<Step>
    decreases n,
{
    if n == 0 {
        seq![]
    } else {
        timeline(actions, last, (n - 1) as nat) + tick_steps(actions, (n - 1) as nat, last)
    }
}

/// The full plan of a run of `spec`.
pub open spec fn plan(spec: TestSpec) -> Seq<Step> {
    let clear = if spec.cleanup is Some {
        seq![Step::ClearRegion]
    } else {
        seq![]
    };
    let last = last_tick(spec.actions@);
    clear + seq![Step::FreezeClock] + timeline(spec.actions@, last, last + 1) + seq![
        Step::UnfreezeClock,
    ] + clear
}

/// How many steps advance the clock.
pub open spec fn advances(steps: Seq<Step>) -> nat
    decreases steps.len(),
{
    if steps.len() == 0 {
        0
    } else {
        advances(steps.drop_last()) + if steps.last() == Step::AdvanceTick {
            1nat
        } else {
            0nat
        }
    }
}

/// The ticks that the steps visit, in order.
pub open spec fn visited(steps: Seq<Step>) -> Seq<nat>
    decreases steps.len(),
{
    if steps.len() == 0 {
        seq![]
    } else {
        match steps.last() {
            Step::BeginTick(t) => visited(steps.drop_last()).push(t as nat),
            _ => visited(steps.drop_last()),
        }
    }
}

/// The ticks from 0 to `n - 1`.
pub open spec fn ticks_below(n: nat) -> Seq<nat> {
    Seq::new(n, |i: int| i as nat)
}

proof fn lemma_counts_single(s: Step)
    ensures
        advances(seq![s]) == if s == Step::AdvanceTick {
            1nat
        } else {
            0nat
        },
        visited(seq![s]) == match s {
            Step::BeginTick(t) => seq![t as nat],
            _ => Seq::<nat>::empty(),
        },
        advances(Seq::<Step>::empty()) == 0,
        visited(Seq::<Step>::empty()) == Seq::<nat>::empty(),
{
    assert(seq![s].drop_last() =~= Seq::<Step>::empty());
    assert(advances(Seq::<Step>::empty()) == 0);
    assert(visited(Seq::<Step>::empty()) == Seq::<nat>::empty());
    match s {
        Step::BeginTick(t) => {
            assert(Seq::<nat>::empty().push(t as nat) =~= seq![t as nat]);
        },
        _ => {},
    }
}

proof fn lemma_counts_concat(a: Seq<Step>, b: Seq<Step>)
    ensures
        advances(a + b) == advances(a) + advances(b),
        visited(a + b) == visited(a) + visited(b),
    decreases b.len(),
{
    if b.len() == 0 {
        assert(a + b =~= a);
        assert(visited(a) + visited(b) =~= visited(a));
    } else {
        lemma_counts_concat(a, b.drop_last());
        assert((a + b).drop_last() =~= a + b.drop_last());
        assert((a + b).last() == b.last());
        match b.last() {
            Step::BeginTick(t) => {
                assert(visited(a) + visited(b.drop_last()).push(t as nat) =~= (visited(a)
                    + visited(b.drop_last())).push(t as nat));
            },
            _ => {},
        }
    }
}

proof fn lemma_bucket_counts(actions: Seq<Action>, t: nat, k: int)
    ensures
        advances(bucket(actions, t, k)) == 0,
        visited(bucket(actions, t, k)) == Seq::<nat>::empty(),
    decreases k,
{
    if k > 0 {
        lemma_bucket_counts(actions, t, k - 1);
        let b = bucket(actions, t, k);
        if actions[k - 1].tick == t {
            assert(b.drop_last() == bucket(actions, t, k - 1));
        }
    }
}

proof fn lemma_timeline_counts(actions: Seq<Action>, last: nat, n: nat)
    requires
        n <= last + 1,
        last <= u32::MAX,
    ensures
        advances(timeline(actions, last, n)) == if n <= last {
            n
        } else {
            last
        },
        visited(timeline(actions, last, n)) == ticks_below(n),
    decreases n,
{
    if n == 0 {
        assert(visited(timeline(actions, last, n)) =~= ticks_below(0));
    } else {
        let t = (n - 1) as nat;
        lemma_timeline_counts(actions, last, t);
        lemma_bucket_counts(actions, t, actions.len() as int);
        let head = seq![Step::BeginTick(t as u32)];
        let b = bucket(actions, t, actions.len() as int);
        let tail = if t < last {
            seq![Step::AdvanceTick]
        } else {
            seq![]
        };
        lemma_counts_single(Step::BeginTick(t as u32));
        lemma_counts_single(Step::AdvanceTick);
        lemma_counts_concat(head, b);
        lemma_counts_concat(head + b, tail);
        lemma_counts_concat(timeline(actions, last, t), tick_steps(actions, t, last));
        assert(ticks_below(t) + (seq![t] + Seq::<nat>::empty() + Seq::<nat>::empty())
            =~= ticks_below(n));
    }
}

/// A run visits every tick from 0 to the last action tick exactly once and in
/// order, and advances the clock once between two consecutive ticks: as many
/// advances as the last action tick, none after the last tick.
pub proof fn lemma_plan_visits_every_tick(spec: TestSpec)
    ensures
        visited(plan(spec)) == ticks_below(last_tick(spec.actions@) + 1),
        advances(plan(spec)) == last_tick(spec.actions@),
{
    let actions = spec.actions@;
    lemma_last_tick_is_max(actions);
    let last = last_tick(actions);
    lemma_timeline_counts(actions, last, last + 1);
    let clear = if spec.cleanup is Some {
        seq![Step::ClearRegion]
    } else {
        seq![]
    };
    lemma_counts_single(Step::ClearRegion);
    lemma_counts_single(Step::FreezeClock);
    lemma_counts_single(Step::UnfreezeClock);
    let freeze = seq![Step::FreezeClock];
    let unfreeze = seq![Step::UnfreezeClock];
    let tl = timeline(actions, last, last + 1);
    lemma_counts_concat(clear, freeze);
    lemma_counts_concat(clear + freeze, tl);
    lemma_counts_concat(clear + freeze + tl, unfreeze);
    lemma_counts_concat(clear + freeze + tl + unfreeze, clear);
    assert(Seq::<nat>::empty() + Seq::<nat>::empty() + ticks_below(last + 1) + Seq::<nat>::empty()
        + Seq::<nat>::empty() =~= ticks_below(last + 1));
}

/// A test without actions has last tick 0: its run visits tick 0 alone and
/// never advances the clock.
pub proof fn lemma_empty_spec_visits_only_tick_zero(spec: TestSpec)
    requires
        spec.actions@.len() == 0,
    ensures
        last_tick(spec.actions@) == 0,
        visited(plan(spec)) == seq![0nat],
        advances(plan(spec)) == 0,
{
    lemma_plan_visits_every_tick(spec);
    assert(ticks_below(1) =~= seq![0nat]);
}

/// How many steps execute action `i`.
pub open spec fn executions_of(steps: Seq<Step>, i: int) -> nat
    decreases steps.len(),
{
    if steps.len() == 0 {
        0
    } else {
        executions_of(steps.drop_last(), i) + if steps.last() == Step::Execute(i as usize) {
            1nat
        } else {
            0nat
        }
    }
}

proof fn lemma_executions_concat(a: Seq<Step>, b: Seq<Step>, i: int)
    ensures
        executions_of(a + b, i) == executions_of(a, i) + executions_of(b, i),
    decreases b.len(),
{
    if b.len() == 0 {
        assert(a + b =~= a);
    } else {
        lemma_executions_concat(a, b.drop_last(), i);
        assert((a + b).drop_last() =~= a + b.drop_last());
    }
}

proof fn lemma_executions_single(s: Step, i: int)
    ensures
        executions_of(seq![s], i) == if s == Step::Execute(i as usize) {
            1nat
        } else {
            0nat
        },
        executions_of(Seq::<Step>::empty(), i) == 0,
{
    assert(seq![s].drop_last() =~= Seq::<Step>::empty());
    assert(executions_of(Seq::<Step>::empty(), i) == 0);
}

proof fn lemma_bucket_executions(actions: Seq<Action>, t: nat, k: int, i: int)
    requires
        0 <= i < actions.len(),
        k <= actions.len(),
        actions.len() <= usize::MAX,
    ensures
        executions_of(bucket(actions, t, k), i) == if i < k && actions[i].tick == t {
            1nat
        } else {
            0nat
        },
    decreases k,
{
    if k > 0 {
        lemma_bucket_executions(actions, t, k - 1, i);
        let b = bucket(actions, t, k);
        if actions[k - 1].tick == t {
            assert(b.drop_last() == bucket(actions, t, k - 1));
            assert((Step::Execute((k - 1) as usize) == Step::Execute(i as usize)) ==> i == k - 1);
        }
    }
}

proof fn lemma_timeline_executions(actions: Seq<Action>, last: nat, n: nat, i: int)
    requires
        0 <= i < actions.len(),
        actions.len() <= usize::MAX,
    ensures
        executions_of(timeline(actions, last, n), i) == if actions[i].tick < n {
            1nat
        } else {
            0nat
        },
    decreases n,
{
    if n > 0 {
        let t = (n - 1) as nat;
        lemma_timeline_executions(actions, last, t, i);
        lemma_bucket_executions(actions, t, actions.len() as int, i);
        lemma_executions_single(Step::BeginTick(t as u32), i);
        lemma_executions_single(Step::AdvanceTick, i);
        let head = seq![Step::BeginTick(t as u32)];
        let b = bucket(actions, t, actions.len() as int);
        let tail = if t < last {
            seq![Step::AdvanceTick]
        } else {
            seq![]
        };
        lemma_executions_concat(head, b, i);
        lemma_executions_concat(head + b, tail, i);
        lemma_executions_concat(timeline(actions, last, t), tick_steps(actions, t, last), i);
    }
}

/// Every action of a test is executed exactly once in its run.
pub proof fn lemma_every_action_executed_once(spec: TestSpec, i: int)
    requires
        0 <= i < spec.actions@.len(),
        spec.actions@.len() <= usize::MAX,
    ensures
        executions_of(plan(spec), i) == 1,
{
    let actions = spec.actions@;
    lemma_last_tick_is_max(actions);
    let last = last_tick(actions);
    assert(actions[i].tick <= last);
    lemma_timeline_executions(actions, last, last + 1, i);
    let clear = if spec.cleanup is Some {
        seq![Step::ClearRegion]
    } else {
        seq![]
    };
    lemma_executions_single(Step::ClearRegion, i);
    lemma_executions_single(Step::FreezeClock, i);
    lemma_executions_single(Step::UnfreezeClock, i);
    let freeze = seq![Step::FreezeClock];
    let unfreeze = seq![Step::UnfreezeClock];
    let tl = timeline(actions, last, last + 1);
    lemma_executions_concat(clear, freeze, i);
    lemma_executions_concat(clear + freeze, tl, i);
    lemma_executions_concat(clear + freeze + tl, unfreeze, i);
    lemma_executions_concat(clear + freeze + tl + unfreeze, clear, i);
}

proof fn lemma_no_advances(s: Seq<Step>)
    requires
        forall|k: int| 0 <= k < s.len() ==> #[trigger] s[k] != Step::AdvanceTick,
    ensures
        advances(s) == 0,
    decreases s.len(),
{
    if s.len() > 0 {
        let d = s.drop_last();
        assert forall|k: int| 0 <= k < d.len() implies #[trigger] d[k] != Step::AdvanceTick by {
            assert(d[k] == s[k]);
        }
        lemma_no_advances(d);
    }
}

proof fn lemma_bucket_members(actions: Seq<Action>, t: nat, k: int)
    requires
        k <= actions.len(),
        actions.len() <= usize::MAX,
    ensures
        forall|q: int|
            0 <= q < bucket(actions, t, k).len() ==> {
                let st = #[trigger] bucket(actions, t, k)[q];
                st is Execute && 0 <= st->Execute_0 < k && actions[st->Execute_0 as int].tick == t
            },
    decreases k,
{
    if k > 0 {
        lemma_bucket_members(actions, t, k - 1);
        let b = bucket(actions, t, k);
        let b0 = bucket(actions, t, k - 1);
        assert forall|q: int| 0 <= q < b.len() implies {
            let st = #[trigger] b[q];
            st is Execute && 0 <= st->Execute_0 < k && actions[st->Execute_0 as int].tick == t
        } by {
            if actions[k - 1].tick == t {
                assert(b == b0.push(Step::Execute((k - 1) as usize)));
            }
            if q < b0.len() {
                assert(b[q] == b0[q]);
            }
        }
    }
}

proof fn lemma_timeline_advances_before(actions: Seq<Action>, last: nat, n: nat, p: int)
    requires
        actions.len() <= usize::MAX,
        n <= last + 1,
        last <= u32::MAX,
        0 <= p < timeline(actions, last, n).len(),
        timeline(actions, last, n)[p] is Execute,
    ensures
        0 <= timeline(actions, last, n)[p]->Execute_0 < actions.len(),
        advances(timeline(actions, last, n).subrange(0, p))
            == actions[timeline(actions, last, n)[p]->Execute_0 as int].tick,
    decreases n,
{
    let tl = timeline(actions, last, n);
    let t = (n - 1) as nat;
    let prev = timeline(actions, last, t);
    let ts = tick_steps(actions, t, last);
    assert(tl == prev + ts);
    if p < prev.len() {
        lemma_timeline_advances_before(actions, last, t, p);
        assert(tl.subrange(0, p) =~= prev.subrange(0, p));
        assert(tl[p] == prev[p]);
    } else {
        let q = p - prev.len();
        let b = bucket(actions, t, actions.len() as int);
        let head = seq![Step::BeginTick(t as u32)];
        lemma_bucket_members(actions, t, actions.len() as int);
        assert(tl[p] == ts[q]);
        assert(q >= 1 && q - 1 < b.len()) by {
            if q == 0 {
                assert(ts[0] == Step::BeginTick(t as u32));
            }
            if q - 1 >= b.len() {
                assert(ts[q] == Step::AdvanceTick);
            }
        }
        assert(ts[q] == b[q - 1]);
        lemma_timeline_counts(actions, last, t);
        let sub = b.subrange(0, q - 1);
        assert forall|k: int| 0 <= k < sub.len() implies #[trigger] sub[k] != Step::AdvanceTick by {
            assert(sub[k] == b[k]);
        }
        lemma_no_advances(sub);
        lemma_counts_single(Step::BeginTick(t as u32));
        assert(tl.subrange(0, p) =~= prev + head + sub);
        lemma_counts_concat(prev, head);
        lemma_counts_concat(prev + head, sub);
    }
}

/// Before each action of a run the clock has advanced exactly as many times
/// as the action's tick: every tick's actions run after the advances that
/// lead to it and before any further one.
pub proof fn lemma_advances_before_action(spec: TestSpec, p: int)
    requires
        spec.actions@.len() <= usize::MAX,
        0 <= p < plan(spec).len(),
        plan(spec)[p] is Execute,
    ensures
        0 <= plan(spec)[p]->Execute_0 < spec.actions@.len(),
        advances(plan(spec).subrange(0, p)) == spec.actions@[plan(spec)[p]->Execute_0 as int].tick,
{
    let actions = spec.actions@;
    lemma_last_tick_is_max(actions);
    let last = last_tick(actions);
    let clear = if spec.cleanup is Some {
        seq![Step::ClearRegion]
    } else {
        seq![]
    };
    let freeze = seq![Step::FreezeClock];
    let unfreeze = seq![Step::UnfreezeClock];
    let tl = timeline(actions, last, last + 1);
    let pre = clear + freeze;
    let pl = plan(spec);
    assert(pl == pre + tl + unfreeze + clear);
    assert(p >= pre.len() && p - pre.len() < tl.len()) by {
        if p < pre.len() {
            assert(pl[p] == pre[p]);
        }
        if p >= pre.len() + tl.len() {
            assert(pl[p] == (unfreeze + clear)[p - pre.len() - tl.len()]);
        }
    }
    let q = p - pre.len();
    assert(pl[p] == tl[q]);
    lemma_timeline_advances_before(actions, last, last + 1, q);
    assert(pl.subrange(0, p) =~= pre + tl.subrange(0, q));
    lemma_counts_single(Step::ClearRegion);
    lemma_counts_single(Step::FreezeClock);
    lemma_counts_concat(clear, freeze);
    lemma_counts_concat(pre, tl.subrange(0, q));
}

proof fn lemma_bucket_increasing(actions: Seq<Action>, t: nat, k: int)
    requires
        k <= actions.len(),
        actions.len() <= usize::MAX,
    ensures
        forall|q1: int, q2: int|
            0 <= q1 < q2 < bucket(actions, t, k).len() ==> (#[trigger] bucket(actions, t, k)[q1])->Execute_0
                < (#[trigger] bucket(actions, t, k)[q2])->Execute_0,
    decreases k,
{
    if k > 0 {
        lemma_bucket_increasing(actions, t, k - 1);
        lemma_bucket_members(actions, t, k - 1);
        let b = bucket(actions, t, k);
        let b0 = bucket(actions, t, k - 1);
        if actions[k - 1].tick == t {
            assert(b == b0.push(Step::Execute((k - 1) as usize)));
            assert forall|q1: int, q2: int| 0 <= q1 < q2 < b.len() implies (#[trigger] b[q1])->Execute_0
                < (#[trigger] b[q2])->Execute_0 by {
                assert(b[q1] == b0[q1]);
                if q2 < b0.len() {
                    assert(b[q2] == b0[q2]);
                }
            }
        }
    }
}

proof fn lemma_timeline_ticks_below(actions: Seq<Action>, last: nat, n: nat, p: int)
    requires
        actions.len() <= usize::MAX,
        0 <= p < timeline(actions, last, n).len(),
        timeline(actions, last, n)[p] is Execute,
    ensures
        0 <= timeline(actions, last, n)[p]->Execute_0 < actions.len(),
        actions[timeline(actions, last, n)[p]->Execute_0 as int].tick < n,
    decreases n,
{
    let t = (n - 1) as nat;
    let prev = timeline(actions, last, t);
    let ts = tick_steps(actions, t, last);
    let tl = timeline(actions, last, n);
    assert(tl == prev + ts);
    if p < prev.len() {
        assert(tl[p] == prev[p]);
        lemma_timeline_ticks_below(actions, last, t, p);
    } else {
        let b = bucket(actions, t, actions.len() as int);
        lemma_bucket_members(actions, t, actions.len() as int);
        let q = p - prev.len();
        assert(tl[p] == ts[q]);
        if q >= 1 && q - 1 < b.len() {
            assert(ts[q] == b[q - 1]);
        } else if q == 0 {
            assert(ts[0] == Step::BeginTick(t as u32));
        } else {
            assert(ts[q] == Step::AdvanceTick);
        }
    }
}

proof fn lemma_timeline_same_tick_order(actions: Seq<Action>, last: nat, n: nat, p: int, r: int)
    requires
        actions.len() <= usize::MAX,
        0 <= p < r < timeline(actions, last, n).len(),
        timeline(actions, last, n)[p] is Execute,
        timeline(actions, last, n)[r] is Execute,
        actions[timeline(actions, last, n)[p]->Execute_0 as int].tick == actions[timeline(
            actions,
            last,
            n,
        )[r]->Execute_0 as int].tick,
    ensures
        timeline(actions, last, n)[p]->Execute_0 < timeline(actions, last, n)[r]->Execute_0,
    decreases n,
{
    let t = (n - 1) as nat;
    let prev = timeline(actions, last, t);
    let ts = tick_steps(actions, t, last);
    let tl = timeline(actions, last, n);
    let b = bucket(actions, t, actions.len() as int);
    assert(tl == prev + ts);
    lemma_bucket_members(actions, t, actions.len() as int);
    lemma_bucket_increasing(actions, t, actions.len() as int);
    if r < prev.len() {
        assert(tl[p] == prev[p]);
        assert(tl[r] == prev[r]);
        lemma_timeline_same_tick_order(actions, last, t, p, r);
    } else {
        let qr = r - prev.len();
        assert(tl[r] == ts[qr]);
        assert(qr >= 1 && qr - 1 < b.len()) by {
            if qr == 0 {
                assert(ts[0] == Step::BeginTick(t as u32));
            }
            if qr - 1 >= b.len() {
                assert(ts[qr] == Step::AdvanceTick);
            }
        }
        assert(ts[qr] == b[qr - 1]);
        if p < prev.len() {
            assert(tl[p] == prev[p]);
            lemma_timeline_ticks_below(actions, last, t, p);
        } else {
            let qp = p - prev.len();
            assert(tl[p] == ts[qp]);
            assert(qp >= 1) by {
                if qp == 0 {
                    assert(ts[0] == Step::BeginTick(t as u32));
                }
            }
            assert(ts[qp] == b[qp - 1]);
        }
    }
}

/// Two actions of the same tick run in declaration order.
pub proof fn lemma_same_tick_in_declaration_order(spec: TestSpec, p: int, r: int)
    requires
        spec.actions@.len() <= usize::MAX,
        0 <= p < r < plan(spec).len(),
        plan(spec)[p] is Execute,
        plan(spec)[r] is Execute,
        spec.actions@[plan(spec)[p]->Execute_0 as int].tick == spec.actions@[plan(
            spec,
        )[r]->Execute_0 as int].tick,
    ensures
        plan(spec)[p]->Execute_0 < plan(spec)[r]->Execute_0,
{
    let actions = spec.actions@;
    let last = last_tick(actions);
    let clear = if spec.cleanup is Some {
        seq![Step::ClearRegion]
    } else {
        seq![]
    };
    let pre = clear + seq![Step::FreezeClock];
    let tl = timeline(actions, last, last + 1);
    let post = seq![Step::UnfreezeClock] + clear;
    let pl = plan(spec);
    assert(pl =~= pre + tl + post);
    assert forall|x: int| 0 <= x < pl.len() && pl[x] is Execute implies pre.len() <= x < pre.len()
        + tl.len() && pl[x] == tl[x - pre.len()] by {
        if x < pre.len() {
            assert(pl[x] == pre[x]);
        } else if x >= pre.len() + tl.len() {
            assert(pl[x] == post[x - pre.len() - tl.len()]);
        }
    }
    lemma_timeline_same_tick_order(actions, last, last + 1, p - pre.len(), r - pre.len());
}

/// The outcome of a finished run.
#[derive(Clone, Debug)]
pub struct TestResult {
    pub test_name: String,
    pub passed: usize,
    pub failed: usize,
    pub success: bool,
}

/// The running count of passed and failed assertions.
#[derive(Clone, Copy, Debug)]
pub struct Tally {
    pub passed: usize,
    pub failed: usize,
}

impl Tally {
    /// No assertion counted yet.
    pub fn new() -> (r: Tally)
        ensures
            r.passed == 0,
            r.failed == 0,
    {
        Tally { passed: 0, failed: 0 }
    }

    /// Counts the outcome of one action: `Ok(true)` is a passed assertion,
    /// `Ok(false)` an action that asserts nothing, and an error a failed
    /// assertion.
    pub fn record(&mut self, outcome: &Result<bool, AssertionFailure>)
        requires
            outcome matches Ok(true) ==> old(self).passed < usize::MAX,
            outcome is Err ==> old(self).failed < usize::MAX,
        ensures
            final(self).passed == old(self).passed + if outcome matches Ok(true) {
                1int
            } else {
                0int
            },
            final(self).failed == old(self).failed + if outcome is Err {
                1int
            } else {
                0int
            },
    {
        match outcome {
            Ok(true) => {
                self.passed = self.passed + 1;
            },
            Ok(false) => {},
            Err(_) => {
                self.failed = self.failed + 1;
            },
        }
    }

    /// The result of the run named `test_name`: it succeeds when no
    /// assertion failed.
    pub fn finish(&self, test_name: String) -> (r: TestResult)
        ensures
            r.test_name@ == test_name@,
            r.passed == self.passed,
            r.failed == self.failed,
            r.success == (self.failed == 0),
    {
        TestResult {
            test_name,
            passed: self.passed,
            failed: self.failed,
            success: self.failed == 0,
        }
    }
}

/// Runs tests with all positions shifted by a fixed offset.
#[derive(Clone, Copy, Debug)]
pub struct TestExecutor {
    pub offset: [i32; 3],
}

impl TestExecutor {
    /// An executor that places tests where they are declared.
    pub fn new() -> (r: TestExecutor)
        ensures
            r.offset@ == seq![0i32, 0i32, 0i32],
    {
        let r = TestExecutor { offset: [0, 0, 0] };
        assert(r.offset@ =~= seq![0i32, 0i32, 0i32]);
        r
    }

    /// An executor that shifts every position by `offset`.
    pub fn with_offset(offset: [i32; 3]) -> (r: TestExecutor)
        ensures
            r.offset == offset,
    {
        TestExecutor { offset }
    }

    /// The steps of a run of `spec`, in order.
    pub fn schedule(&self, spec: &TestSpec) -> (r: Vec<Step>)
        ensures
            r@ == plan(*spec),
    {
        let ghost actions = spec.actions@;
        let last = spec.max_tick();
        proof {
            lemma_last_tick_is_max(actions);
        }
        let mut r: Vec<Step> = Vec::new();
        if spec.cleanup.is_some() {
            r.push(Step::ClearRegion);
        }
        r.push(Step::FreezeClock);
        let ghost prefix = r@;
        let mut t: u64 = 0;
        while t <= last as u64
            invariant
                last as nat == last_tick(actions),
                actions == spec.actions@,
                t <= last as u64 + 1,
                r@ == prefix + timeline(actions, last as nat, t as nat),
            decreases last as u64 + 1 - t,
        {
            let ghost before = r@;
            r.push(Step::BeginTick(t as u32));
            let mut k: usize = 0;
            while k < spec.actions.len()
                invariant
                    actions == spec.actions@,
                    k <= actions.len(),
                    t <= u32::MAX,
                    r@ == before + seq![Step::BeginTick(t as u32)] + bucket(
                        actions,
                        t as nat,
                        k as int,
                    ),
                decreases spec.actions.len() - k,
            {
                if spec.actions[k].tick as u64 == t {
                    r.push(Step::Execute(k));
                }
                k = k + 1;
            }
            if t < last as u64 {
                r.push(Step::AdvanceTick);
            }
            assert(r@ =~= prefix + timeline(actions, last as nat, (t + 1) as nat));
            t = t + 1;
        }
        r.push(Step::UnfreezeClock);
        if spec.cleanup.is_some() {
            r.push(Step::ClearRegion);
        }
        assert(r@ =~= plan(*spec));
        r
    }

    /// The pause after each command of `action`, in milliseconds: shorter
    /// within a burst placement.
    pub fn command_delay_ms(&self, action: &ActionType) -> (r: u64)
        ensures
            r == if action is PlaceEach {
                PLACE_EACH_DELAY_MS
            } else {
                ACTION_DELAY_MS
            },
    {
        match action {
            ActionType::PlaceEach { .. } => PLACE_EACH_DELAY_MS,
            _ => ACTION_DELAY_MS,
        }
    }

    /// The commands that carry out `action` at this executor's offset.
    pub fn commands(&self, action: &ActionType) -> (r: Vec<String>)
        requires
            action_fits(*action, self.offset),
        ensures
            r@.map_values(|c: String| c@) == action_commands(*action, self.offset),
    {
        commands_for(action, self.offset)
    }
}

} // verus!
