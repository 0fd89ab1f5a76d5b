//! Reachability and traces of the described transition system.

use vstd::prelude::*;

use crate::model::Model;

verus! {

/// Some generated action of `s` leads to `t`: one step of the transition
/// relation that the engine explores.  Actions whose transition function
/// returns `None` contribute no edge.
pub open spec fn has_edge<M: Model>(m: M, s: M::State, t: M::State) -> bool {
    exists|k: int|
        0 <= k < m.action_seq(s).len() && #[trigger] m.next_spec(s, m.action_seq(s)[k]) == Some(t)
}

/// Step `i` of `trace` applies a generated, applicable action to the step's
/// state and arrives at the next step's state (at `end` for the last step).
pub open spec fn trace_step_ok<M: Model>(
    m: M,
    trace: Seq<(M::State, M::Action)>,
    end: M::State,
    i: int,
) -> bool {
    let s = trace[i].0;
    let a = trace[i].1;
    let t = if i + 1 < trace.len() {
        trace[i + 1].0
    } else {
        end
    };
    m.action_seq(s).contains(a) && m.next_spec(s, a) == Some(t)
}

/// `trace` is a genuine path of the system from an initial state to `end`:
/// its first state is initial (or `end` itself is initial and the trace is
/// empty), and every step is a generated, applicable transition.
pub open spec fn valid_trace<M: Model>(
    m: M,
    trace: Seq<(M::State, M::Action)>,
    end: M::State,
) -> bool {
    &&& if trace.len() == 0 {
        m.init_seq().contains(end)
    } else {
        m.init_seq().contains(trace[0].0)
    }
    &&& forall|i: int| 0 <= i < trace.len() ==> #[trigger] trace_step_ok(m, trace, end, i)
}

/// `s` lies at most `n` transitions away from some initial state.
pub open spec fn reachable_within<M: Model>(m: M, s: M::State, n: nat) -> bool {
    exists|trace: Seq<(M::State, M::Action)>|
        trace.len() <= n && #[trigger] valid_trace(m, trace, s)
}

/// `s` is reachable from some initial state in any number of transitions.
pub open spec fn reachable<M: Model>(m: M, s: M::State) -> bool {
    exists|trace: Seq<(M::State, M::Action)>| #[trigger] valid_trace(m, trace, s)
}

/// The end of a valid trace is reachable within the trace's length.
pub proof fn lemma_trace_reachable<M: Model>(
    m: M,
    trace: Seq<(M::State, M::Action)>,
    end: M::State,
)
    requires
        valid_trace(m, trace, end),
    ensures
        reachable_within(m, end, trace.len() as nat),
        reachable(m, end),
{
}

/// An initial state is reachable within any bound.
pub proof fn lemma_init_reachable<M: Model>(m: M, s: M::State, n: nat)
    requires
        m.init_seq().contains(s),
    ensures
        reachable_within(m, s, n),
{
    let trace = Seq::<(M::State, M::Action)>::empty();
    assert(valid_trace(m, trace, s));
}

/// Reachability within `n1` steps implies reachability within any larger
/// bound.
pub proof fn lemma_reachable_monotone<M: Model>(m: M, s: M::State, n1: nat, n2: nat)
    requires
        reachable_within(m, s, n1),
        n1 <= n2,
    ensures
        reachable_within(m, s, n2),
{
    let trace = choose|trace: Seq<(M::State, M::Action)>|
        trace.len() <= n1 && #[trigger] valid_trace(m, trace, s);
    assert(trace.len() <= n2 && valid_trace(m, trace, s));
}

/// A valid trace to `mid` extended by one applicable action from `mid`
/// is a valid trace to the action's destination.
pub proof fn lemma_trace_extend<M: Model>(
    m: M,
    trace: Seq<(M::State, M::Action)>,
    mid: M::State,
    a: M::Action,
    end: M::State,
)
    requires
        valid_trace(m, trace, mid),
        m.action_seq(mid).contains(a),
        m.next_spec(mid, a) == Some(end),
    ensures
        valid_trace(m, trace.push((mid, a)), end),
{
    let t2 = trace.push((mid, a));
    assert forall|i: int| 0 <= i < t2.len() implies #[trigger] trace_step_ok(m, t2, end, i) by {
        if i < trace.len() {
            assert(trace_step_ok(m, trace, mid, i));
            assert(t2[i] == trace[i]);
            if i + 1 < trace.len() {
                assert(t2[i + 1] == trace[i + 1]);
            } else {
                assert(t2[i + 1].0 == mid);
            }
        } else {
            assert(t2[i] == (mid, a));
        }
    }
    if trace.len() == 0 {
        assert(t2[0].0 == mid);
    } else {
        assert(t2[0] == trace[0]);
    }
}

/// Dropping the last step of a non-empty valid trace leaves a valid trace to
/// that step's state, which has an edge to the old end.
pub proof fn lemma_trace_shrink<M: Model>(
    m: M,
    trace: Seq<(M::State, M::Action)>,
    end: M::State,
)
    requires
        valid_trace(m, trace, end),
        trace.len() > 0,
    ensures
        valid_trace(m, trace.drop_last(), trace.last().0),
        has_edge(m, trace.last().0, end),
{
    let n: int = trace.len() - 1;
    let mid = trace[n].0;
    let shorter = trace.drop_last();
    assert forall|i: int| 0 <= i < shorter.len() implies #[trigger] trace_step_ok(
        m,
        shorter,
        mid,
        i,
    ) by {
        assert(trace_step_ok(m, trace, end, i));
        assert(shorter[i] == trace[i]);
        if i + 1 < shorter.len() {
            assert(shorter[i + 1] == trace[i + 1]);
        } else {
            assert(trace[i + 1].0 == mid);
        }
    }
    if shorter.len() > 0 {
        assert(shorter[0] == trace[0]);
    }
    assert(trace_step_ok(m, trace, end, n));
    let a = trace[n].1;
    let k = choose|k: int| 0 <= k < m.action_seq(mid).len() && m.action_seq(mid)[k] == a;
    assert(m.next_spec(mid, m.action_seq(mid)[k]) == Some(end));
}

/// One more transition extends the reachability bound by one.
pub proof fn lemma_reachable_step<M: Model>(m: M, t: M::State, s: M::State, n: nat)
    requires
        reachable_within(m, t, n),
        has_edge(m, t, s),
    ensures
        reachable_within(m, s, n + 1),
{
    let trace = choose|trace: Seq<(M::State, M::Action)>|
        trace.len() <= n && #[trigger] valid_trace(m, trace, t);
    let k = choose|k: int|
        0 <= k < m.action_seq(t).len() && #[trigger] m.next_spec(t, m.action_seq(t)[k]) == Some(s);
    let a = m.action_seq(t)[k];
    lemma_trace_extend(m, trace, t, a, s);
    assert(trace.push((t, a)).len() <= n + 1 && valid_trace(m, trace.push((t, a)), s));
}

/// A state reachable within `n` but not initial is one edge away from a
/// state reachable within `n - 1`.
pub proof fn lemma_reachable_destruct<M: Model>(m: M, s: M::State, n: nat)
    requires
        reachable_within(m, s, n),
        !m.init_seq().contains(s),
    ensures
        n > 0,
        exists|t: M::State|
            #[trigger] reachable_within(m, t, (n - 1) as nat) && has_edge(m, t, s),
{
    let trace = choose|trace: Seq<(M::State, M::Action)>|
        trace.len() <= n && #[trigger] valid_trace(m, trace, s);
    assert(trace.len() > 0);
    lemma_trace_shrink(m, trace, s);
    let mid = trace.last().0;
    let shorter = trace.drop_last();
    assert(shorter.len() <= n - 1 && valid_trace(m, shorter, mid));
    assert(reachable_within(m, mid, (n - 1) as nat));
}

} // verus!
