//! The breadth-first search engine.
//!
//! [`run`] seeds a [`StateStore`] with the model's initial states and then
//! expands stored states in discovery order.  Because new states are always
//! appended with depth one past their predecessor's, discovery order is
//! breadth-first layer order, which makes every recorded depth the exact
//! shortest distance from an initial state and every reported trace a
//! shortest counterexample or witness.

use vstd::prelude::*;

use crate::model::{Model, PropertyKind};
use crate::reach::{
    has_edge, lemma_reachable_destruct, lemma_trace_extend, reachable_within, valid_trace,
};
use crate::store::{
    record_ok, store_wf, stored, stored_within, Record, StateStore,
};

verus! {

/// How a check run is configured.
pub struct Config {
    /// Size of the worker pool; kept for interface compatibility.  The
    /// engine's results never depend on it.
    pub workers: usize,
    /// Stop discovering once this many states are stored.
    pub max_states: Option<usize>,
    /// Do not expand states at this depth or beyond.
    pub max_depth: Option<usize>,
    /// Stop the whole run at the first failing `Always` property.
    pub fail_fast: bool,
}

impl Config {
    /// The default configuration: one worker, no caps, fail-fast.
    pub fn new() -> (c: Config)
        ensures
            c.workers == 1,
            c.max_states is None,
            c.max_depth is None,
            c.fail_fast,
    {
        Config { workers: 1, max_states: None, max_depth: None, fail_fast: true }
    }
}

/// The verdict of one property after a run.
#[derive(Clone, Copy, Debug, PartialEq, Eq, Structural)]
pub enum Verdict {
    /// The run ended early (a cap was hit, or another property failed fast)
    /// before this property could be decided: an incomplete search, never to
    /// be mistaken for a proof.
    Unresolved,
    /// `Always`: no reachable state violates the property.  `Sometimes`: a
    /// reachable witness state satisfies it.
    Pass,
    /// `Always`: a reachable state violates the property.  `Sometimes`: the
    /// reachable space was exhausted without a witness.
    Fail,
}

/// What the run concluded about one property.
pub struct PropertyOutcome<M: Model> {
    /// The property's name, as the description registered it.
    pub name: String,
    /// Whether the property is an `Always` or a `Sometimes` property.
    pub kind: PropertyKind,
    /// The verdict; see [`Verdict`].
    pub verdict: Verdict,
    /// For a failing `Always` or a passing `Sometimes` property: the
    /// violating or witnessing state.
    pub target: Option<M::State>,
    /// For a failing `Always` or a passing `Sometimes` property: a shortest
    /// trace from an initial state to the target.
    pub trace: Option<Vec<(M::State, M::Action)>>,
}

/// Every reachable state satisfies property `p`.
pub open spec fn always_holds<M: Model>(m: M, p: int) -> bool {
    forall|x: M::State, n: nat| #[trigger] reachable_within(m, x, n) ==> m.prop_holds(p, x)
}

/// No reachable state satisfies property `p`.
pub open spec fn never_holds<M: Model>(m: M, p: int) -> bool {
    forall|x: M::State, n: nat| #[trigger] reachable_within(m, x, n) ==> !m.prop_holds(p, x)
}

/// Every state within distance `bound`, exclusive, satisfies property `p`.
pub open spec fn holds_below<M: Model>(m: M, p: int, bound: int) -> bool {
    forall|x: M::State, n: nat|
        n < bound && #[trigger] reachable_within(m, x, n) ==> m.prop_holds(p, x)
}

/// No state within distance `bound`, exclusive, satisfies property `p`.
pub open spec fn fails_below<M: Model>(m: M, p: int, bound: int) -> bool {
    forall|x: M::State, n: nat|
        n < bound && #[trigger] reachable_within(m, x, n) ==> !m.prop_holds(p, x)
}

/// The outcome of property `p` is truthful for model `m`.
///
/// An `Always` `Pass` proves the property on the whole reachable space; an
/// `Always` `Fail` carries a valid counterexample trace such that no strictly
/// shorter path reaches any violation.  A `Sometimes` `Pass` carries a valid
/// witness trace such that no strictly shorter path reaches any witness; a
/// `Sometimes` `Fail` proves no reachable witness exists.
pub open spec fn outcome_valid<M: Model>(m: M, p: int, o: PropertyOutcome<M>) -> bool {
    &&& o.name@ == m.prop_name(p)
    &&& o.kind == m.prop_kind(p)
    &&& match o.verdict {
        Verdict::Unresolved => o.target is None && o.trace is None,
        Verdict::Pass => if m.prop_kind(p) is Always {
            &&& always_holds(m, p)
            &&& o.target is None
            &&& o.trace is None
        } else {
            &&& o.target is Some
            &&& o.trace is Some
            &&& m.prop_holds(p, o.target->0)
            &&& valid_trace(m, o.trace->0@, o.target->0)
            &&& fails_below(m, p, o.trace->0@.len() as int)
        },
        Verdict::Fail => if m.prop_kind(p) is Always {
            &&& o.target is Some
            &&& o.trace is Some
            &&& !m.prop_holds(p, o.target->0)
            &&& valid_trace(m, o.trace->0@, o.target->0)
            &&& holds_below(m, p, o.trace->0@.len() as int)
        } else {
            &&& never_holds(m, p)
            &&& o.target is None
            &&& o.trace is None
        },
    }
}

/// What one run reports.
pub struct Report<M: Model> {
    /// One outcome per registered property, in registration order.
    pub outcomes: Vec<PropertyOutcome<M>>,
    /// The store of every discovered state, with depths and predecessors.
    pub store: StateStore<M>,
    /// How many distinct states were discovered.
    pub states_discovered: usize,
    /// How many distinct states were expanded; each discovered state is
    /// expanded at most once.
    pub states_expanded: usize,
    /// Whether the whole reachable space was explored.
    pub exhausted: bool,
}

/// Every initial state is stored at depth zero.
pub open spec fn inits_stored<M: Model>(m: M, s: Seq<Record<M>>) -> bool {
    forall|k: int|
        0 <= k < m.init_seq().len() ==> stored_within(s, #[trigger] m.init_seq()[k], 0)
}

/// Every applicable successor of `x`, expanded at depth `d`, is stored with
/// depth at most `d + 1`.
pub open spec fn succs_stored<M: Model>(m: M, s: Seq<Record<M>>, x: M::State, d: int) -> bool {
    forall|k: int|
        0 <= k < m.action_seq(x).len() && (#[trigger] m.next_spec(x, m.action_seq(x)[k])) is Some
            ==> stored_within(s, m.next_spec(x, m.action_seq(x)[k])->0, d + 1)
}

/// The first `h` stored states have been fully expanded.
pub open spec fn prefix_expanded<M: Model>(m: M, s: Seq<Record<M>>, h: int) -> bool {
    forall|j: int| 0 <= j < h ==> succs_stored(m, s, (#[trigger] s[j]).state, s[j].depth as int)
}

/// Breadth-first completeness up to `bound`: every state reachable within
/// `bound` transitions is stored, with a depth no larger than that distance.
pub open spec fn explored_to<M: Model>(m: M, s: Seq<Record<M>>, bound: int) -> bool {
    forall|x: M::State, n: nat|
        n <= bound && #[trigger] reachable_within(m, x, n) ==> stored_within(s, x, n as int)
}

/// No stored state could have been reached by a strictly shorter path than
/// its recorded depth: depths are exact shortest distances.
pub open spec fn depths_minimal<M: Model>(m: M, s: Seq<Record<M>>) -> bool {
    forall|i: int, n: nat|
        0 <= i < s.len() && n < s[i].depth ==> !(#[trigger] reachable_within(m, s[i].state, n))
}

/// `w` is the earliest-discovered state satisfying property `p`: some stored
/// record holds `w`, and every record discovered before it fails `p`.  Since
/// the store keeps records in discovery order, this pins a reported witness
/// to the first satisfying state the search found.
pub open spec fn earliest_witness<M: Model>(m: M, s: Seq<Record<M>>, p: int, w: M::State) -> bool {
    exists|i: int|
        {
            &&& 0 <= i < s.len()
            &&& (#[trigger] s[i]).state == w
            &&& m.prop_holds(p, s[i].state)
            &&& forall|j: int| 0 <= j < i ==> !m.prop_holds(p, (#[trigger] s[j]).state)
        }
}

/// `w` is the earliest-discovered state violating property `p`: some stored
/// record holds `w`, and every record discovered before it satisfies `p`.
pub open spec fn earliest_violation<M: Model>(m: M, s: Seq<Record<M>>, p: int, w: M::State) -> bool {
    exists|i: int|
        {
            &&& 0 <= i < s.len()
            &&& (#[trigger] s[i]).state == w
            &&& !m.prop_holds(p, s[i].state)
            &&& forall|j: int| 0 <= j < i ==> m.prop_holds(p, (#[trigger] s[j]).state)
        }
}

/// The engine's running knowledge about one property.
#[derive(Clone, Copy)]
enum Resolution {
    /// Nothing decisive seen yet.
    Open,
    /// A `Sometimes` property was satisfied by the state at this store index.
    PassAt(usize),
    /// An `Always` property was violated by the state at this store index.
    FailAt(usize),
    /// An `Always` property held on every state of the exhausted space.
    PassExhausted,
    /// A `Sometimes` property held on no state of the exhausted space.
    FailExhausted,
}

/// What a resolution claims, relative to the current store contents.
spec fn res_inv<M: Model>(m: M, s: Seq<Record<M>>, p: int, r: Resolution) -> bool {
    match r {
        Resolution::Open => forall|i: int|
            0 <= i < s.len() ==> (m.prop_holds(p, (#[trigger] s[i]).state) <==> m.prop_kind(p)
                is Always),
        Resolution::PassAt(i) => {
            &&& m.prop_kind(p) is Sometimes
            &&& 0 <= (i as int) < s.len()
            &&& m.prop_holds(p, s[i as int].state)
            &&& fails_below(m, p, s[i as int].depth as int)
            &&& forall|j: int| 0 <= j < i as int ==> !m.prop_holds(p, (#[trigger] s[j]).state)
        },
        Resolution::FailAt(i) => {
            &&& m.prop_kind(p) is Always
            &&& 0 <= (i as int) < s.len()
            &&& !m.prop_holds(p, s[i as int].state)
            &&& holds_below(m, p, s[i as int].depth as int)
            &&& forall|j: int| 0 <= j < i as int ==> m.prop_holds(p, (#[trigger] s[j]).state)
        },
        Resolution::PassExhausted => m.prop_kind(p) is Always && always_holds(m, p),
        Resolution::FailExhausted => m.prop_kind(p) is Sometimes && never_holds(m, p),
    }
}

/// A state stored within some depth bound is stored within any larger bound.
proof fn lemma_stored_within_weaken<M: Model>(s: Seq<Record<M>>, x: M::State, d1: int, d2: int)
    requires
        stored_within(s, x, d1),
        d1 <= d2,
    ensures
        stored_within(s, x, d2),
{
    let i = choose|i: int| 0 <= i < s.len() && #[trigger] s[i].state == x && s[i].depth <= d1;
    assert(0 <= i < s.len() && s[i].state == x && s[i].depth <= d2);
}

/// A state stored within a bound is stored.
proof fn lemma_stored_within_stored<M: Model>(s: Seq<Record<M>>, x: M::State, d: int)
    requires
        stored_within(s, x, d),
    ensures
        stored(s, x),
{
    let i = choose|i: int| 0 <= i < s.len() && #[trigger] s[i].state == x && s[i].depth <= d;
    assert(0 <= i < s.len() && s[i].state == x);
}

/// Appending a record cannot unstore anything.
proof fn lemma_stored_within_push<M: Model>(
    s: Seq<Record<M>>,
    rec: Record<M>,
    x: M::State,
    d: int,
)
    requires
        stored_within(s, x, d),
    ensures
        stored_within(s.push(rec), x, d),
{
    let i = choose|i: int| 0 <= i < s.len() && #[trigger] s[i].state == x && s[i].depth <= d;
    assert(s.push(rec)[i] == s[i]);
    assert(0 <= i < s.push(rec).len() && s.push(rec)[i].state == x && s.push(rec)[i].depth <= d);
}

/// The breadth-first bookkeeping facts survive appending a record.
proof fn lemma_bfs_facts_push<M: Model>(
    m: M,
    s: Seq<Record<M>>,
    rec: Record<M>,
    h: int,
    bound: int,
)
    requires
        0 <= h <= s.len(),
        inits_stored(m, s),
        prefix_expanded(m, s, h),
        explored_to(m, s, bound),
    ensures
        inits_stored(m, s.push(rec)),
        prefix_expanded(m, s.push(rec), h),
        explored_to(m, s.push(rec), bound),
{
    let s2 = s.push(rec);
    assert forall|k: int| 0 <= k < m.init_seq().len() implies stored_within(
        s2,
        #[trigger] m.init_seq()[k],
        0,
    ) by {
        lemma_stored_within_push(s, rec, m.init_seq()[k], 0);
    }
    assert forall|j: int| 0 <= j < h implies succs_stored(
        m,
        s2,
        (#[trigger] s2[j]).state,
        s2[j].depth as int,
    ) by {
        assert(s2[j] == s[j]);
        assert(succs_stored(m, s, s[j].state, s[j].depth as int));
        let x = s[j].state;
        let d = s[j].depth as int;
        assert forall|k: int|
            0 <= k < m.action_seq(x).len() && (#[trigger] m.next_spec(x, m.action_seq(x)[k]))
                is Some implies stored_within(s2, m.next_spec(x, m.action_seq(x)[k])->0, d + 1) by {
            lemma_stored_within_push(s, rec, m.next_spec(x, m.action_seq(x)[k])->0, d + 1);
        }
    }
    assert forall|x: M::State, n: nat|
        n <= bound && #[trigger] reachable_within(m, x, n) implies stored_within(
        s2,
        x,
        n as int,
    ) by {
        lemma_stored_within_push(s, rec, x, n as int);
    }
}

/// When every stored state has been expanded and every initial state is
/// stored, every reachable state is stored: the search was exhaustive.
pub proof fn lemma_exhausted_complete<M: Model>(m: M, s: Seq<Record<M>>, x: M::State, n: nat)
    requires
        inits_stored(m, s),
        prefix_expanded(m, s, s.len() as int),
        reachable_within(m, x, n),
    ensures
        stored(s, x),
    decreases n,
{
    if m.init_seq().contains(x) {
        let k = choose|k: int| 0 <= k < m.init_seq().len() && m.init_seq()[k] == x;
        assert(stored_within(s, m.init_seq()[k], 0));
        lemma_stored_within_stored(s, x, 0);
    } else {
        lemma_reachable_destruct(m, x, n);
        let t = choose|t: M::State|
            #[trigger] reachable_within(m, t, (n - 1) as nat) && has_edge(m, t, x);
        lemma_exhausted_complete(m, s, t, (n - 1) as nat);
        let i = choose|i: int| 0 <= i < s.len() && #[trigger] s[i].state == t;
        assert(succs_stored(m, s, s[i].state, s[i].depth as int));
        let k = choose|k: int|
            0 <= k < m.action_seq(t).len() && #[trigger] m.next_spec(t, m.action_seq(t)[k])
                == Some(x);
        assert(m.next_spec(s[i].state, m.action_seq(s[i].state)[k]) is Some);
        assert(stored_within(s, x, s[i].depth + 1));
        lemma_stored_within_stored(s, x, s[i].depth + 1);
    }
}

/// Walks predecessor links back from record `i` to an initial state and
/// returns the ordered trace from that initial state to record `i`'s state.
/// The trace is a valid path whose length is exactly the recorded depth.
pub fn reconstruct<M: Model>(m: &M, store: &StateStore<M>, i: usize) -> (r: Vec<
    (M::State, M::Action),
>)
    requires
        store_wf(*m, store.recs@),
        (i as int) < store.recs@.len(),
    ensures
        r@.len() == store.recs@[i as int].depth,
        valid_trace(*m, r@, store.recs@[i as int].state),
    decreases store.recs@[i as int].depth,
{
    proof {
        assert(record_ok(*m, store.recs@, i as int));
    }
    match &store.recs[i].pred {
        None => Vec::new(),
        Some(p) => {
            let j: usize = p.0;
            let a = m.clone_action(&p.1);
            let mut r = reconstruct(m, store, j);
            let sj = m.clone_state(&store.recs[j].state);
            proof {
                lemma_trace_extend(
                    *m,
                    r@,
                    store.recs@[j as int].state,
                    a,
                    store.recs@[i as int].state,
                );
            }
            r.push((sj, a));
            r
        },
    }
}

/// A failing `Always` outcome reports a shortest counterexample: its trace
/// ends in a reachable violating state, and no path with strictly fewer
/// transitions reaches any violating state.
pub proof fn lemma_shortest_counterexample<M: Model>(m: M, p: int, o: PropertyOutcome<M>)
    requires
        outcome_valid(m, p, o),
        m.prop_kind(p) is Always,
        o.verdict is Fail,
    ensures
        reachable_within(m, o.target->0, o.trace->0@.len() as nat),
        !m.prop_holds(p, o.target->0),
        forall|x: M::State, n: nat|
            n < o.trace->0@.len() && #[trigger] reachable_within(m, x, n) ==> m.prop_holds(p, x),
{
    crate::reach::lemma_trace_reachable(m, o.trace->0@, o.target->0);
}

/// A passing `Sometimes` outcome reports a shortest witness: its trace ends
/// in a reachable satisfying state, and no path with strictly fewer
/// transitions reaches any satisfying state.
pub proof fn lemma_shortest_witness<M: Model>(m: M, p: int, o: PropertyOutcome<M>)
    requires
        outcome_valid(m, p, o),
        m.prop_kind(p) is Sometimes,
        o.verdict is Pass,
    ensures
        reachable_within(m, o.target->0, o.trace->0@.len() as nat),
        m.prop_holds(p, o.target->0),
        forall|x: M::State, n: nat|
            n < o.trace->0@.len() && #[trigger] reachable_within(m, x, n) ==> !m.prop_holds(p, x),
{
    crate::reach::lemma_trace_reachable(m, o.trace->0@, o.target->0);
}

/// Once a property's verdict is definitive, it decides the property exactly:
/// an `Always` property passes precisely when every reachable state
/// satisfies it, and a `Sometimes` property passes precisely when some
/// reachable state satisfies it.  After an exhausted run every verdict is
/// definitive, so this is the exhaustion semantics of the engine.
pub proof fn lemma_exhaustion_semantics<M: Model>(m: M, p: int, o: PropertyOutcome<M>)
    requires
        outcome_valid(m, p, o),
        !(o.verdict is Unresolved),
    ensures
        m.prop_kind(p) is Always ==> ((o.verdict is Pass) <==> always_holds(m, p)),
        m.prop_kind(p) is Sometimes ==> ((o.verdict is Pass) <==> !never_holds(m, p)),
{
    match o.verdict {
        Verdict::Pass => {
            if m.prop_kind(p) is Sometimes {
                crate::reach::lemma_trace_reachable(m, o.trace->0@, o.target->0);
            }
        },
        Verdict::Fail => {
            if m.prop_kind(p) is Always {
                crate::reach::lemma_trace_reachable(m, o.trace->0@, o.target->0);
            }
        },
        Verdict::Unresolved => {},
    }
}

/// Evaluates every still-open property on the newly stored last record and
/// resolves the ones it decides.  Returns whether the run should stop: either
/// an `Always` property failed under fail-fast, or no property is open.
#[verifier::loop_isolation(false)]
fn note_discovery<M: Model>(
    m: &M,
    store: &StateStore<M>,
    idx: usize,
    res: &mut Vec<Resolution>,
    fail_fast: bool,
) -> (stop: bool)
    requires
        store_wf(*m, store.recs@),
        store.recs@.len() > 0,
        idx as int == store.recs@.len() - 1,
        old(res)@.len() == m.prop_count(),
        forall|p: int|
            0 <= p < m.prop_count() ==> res_inv(
                *m,
                store.recs@.drop_last(),
                p,
                #[trigger] old(res)@[p],
            ),
        forall|x: M::State, n: nat|
            n < store.recs@[store.recs@.len() - 1].depth && #[trigger] reachable_within(*m, x, n)
                ==> stored_within(store.recs@.drop_last(), x, n as int),
    ensures
        final(res)@.len() == old(res)@.len(),
        forall|p: int|
            0 <= p < m.prop_count() ==> res_inv(*m, store.recs@, p, #[trigger] final(res)@[p]),
        forall|p: int|
            0 <= p < m.prop_count() ==> ((#[trigger] final(res)@[p]) == old(res)@[p]
                || final(res)@[p] is PassAt
                || final(res)@[p] is FailAt),
        stop ==> ((fail_fast && (exists|p: int|
            0 <= p < final(res)@.len() && (#[trigger] final(res)@[p]) is FailAt))
            || (forall|p: int|
                0 <= p < final(res)@.len() ==> !((#[trigger] final(res)@[p]) is Open))),
{
    let ghost s = store.recs@;
    let ghost s0 = store.recs@.drop_last();
    let st = &store.recs[idx].state;
    let ghost dd = s[idx as int].depth as int;
    let n: usize = res.len();
    let mut p: usize = 0;
    let mut failed = false;
    let ghost mut fail_idx: int = 0;
    while p < n
        invariant
            store_wf(*m, s),
            s == store.recs@,
            s0 == s.drop_last(),
            s.len() > 0,
            idx as int == s.len() - 1,
            dd == s[idx as int].depth as int,
            n == res@.len(),
            res@.len() == m.prop_count(),
            p <= n,
            forall|q: int| p <= q < n ==> #[trigger] res@[q] == old(res)@[q],
            forall|q: int| 0 <= q < n ==> res_inv(*m, s0, q, #[trigger] old(res)@[q]),
            forall|q: int| 0 <= q < p ==> res_inv(*m, s, q, #[trigger] res@[q]),
            forall|q: int|
                0 <= q < p ==> ((#[trigger] res@[q]) == old(res)@[q] || res@[q] is PassAt || res@[
                    q
                ] is FailAt),
            failed ==> 0 <= fail_idx < n && res@[fail_idx] is FailAt,
            forall|x: M::State, nn: nat|
                nn < dd && #[trigger] reachable_within(*m, x, nn) ==> stored_within(
                    s0,
                    x,
                    nn as int,
                ),
        decreases n - p,
    {
        let cur = res[p];
        match cur {
            Resolution::Open => {
                let kind = m.property_kind(p);
                let holds = m.eval_property(p, st);
                proof {
                    assert(res_inv(*m, s0, p as int, Resolution::Open));
                }
                let decided: bool = match kind {
                    PropertyKind::Always => !holds,
                    PropertyKind::Sometimes => holds,
                };
                if decided {
                    let next = match kind {
                        PropertyKind::Always => Resolution::FailAt(idx),
                        PropertyKind::Sometimes => Resolution::PassAt(idx),
                    };
                    if kind == PropertyKind::Always {
                        failed = true;
                        proof {
                            fail_idx = p as int;
                        }
                    }
                    res.set(p, next);
                    proof {
                        assert(res@[p as int] == next);
                        assert forall|j: int| 0 <= j < idx as int implies (m.prop_holds(
                            p as int,
                            (#[trigger] s[j]).state,
                        ) <==> m.prop_kind(p as int) is Always) by {
                            assert(s0[j] == s[j]);
                            assert(m.prop_holds(p as int, s0[j].state) <==> m.prop_kind(p as int)
                                is Always);
                        }
                        assert forall|x: M::State, nn: nat|
                            nn < dd && #[trigger] reachable_within(*m, x, nn) implies (m.prop_holds(
                            p as int,
                            x,
                        ) <==> m.prop_kind(p as int) is Always) by {
                            assert(stored_within(s0, x, nn as int));
                            let i0 = choose|i0: int|
                                0 <= i0 < s0.len() && #[trigger] s0[i0].state == x && s0[i0].depth
                                    <= nn;
                            assert(m.prop_holds(p as int, s0[i0].state) <==> m.prop_kind(p as int)
                                is Always);
                        }
                        assert(res_inv(*m, s, p as int, next));
                    }
                } else {
                    proof {
                        assert forall|i: int| 0 <= i < s.len() implies (m.prop_holds(
                            p as int,
                            (#[trigger] s[i]).state,
                        ) <==> m.prop_kind(p as int) is Always) by {
                            if i < s.len() - 1 {
                                assert(s0[i] == s[i]);
                                assert(m.prop_holds(p as int, s0[i].state) <==> m.prop_kind(
                                    p as int,
                                ) is Always);
                            }
                        }
                        assert(res_inv(*m, s, p as int, Resolution::Open));
                    }
                }
            },
            _ => {
                proof {
                    let r0 = res@[p as int];
                    assert forall|j: int| 0 <= j < s0.len() implies s0[j] == (#[trigger] s[j]) by {}
                    match r0 {
                        Resolution::PassAt(i) => {
                            assert(s0[i as int] == s[i as int]);
                        },
                        Resolution::FailAt(i) => {
                            assert(s0[i as int] == s[i as int]);
                        },
                        _ => {},
                    }
                    assert(res_inv(*m, s, p as int, r0));
                }
            },
        }
        p = p + 1;
    }
    let mut q: usize = 0;
    let mut any_open = false;
    while q < n
        invariant
            n == res@.len(),
            q <= n,
            !any_open ==> forall|q2: int| 0 <= q2 < q ==> !((#[trigger] res@[q2]) is Open),
        decreases n - q,
    {
        match res[q] {
            Resolution::Open => {
                any_open = true;
            },
            _ => {},
        }
        q = q + 1;
    }
    proof {
        if failed {
            assert(exists|q2: int| 0 <= q2 < res@.len() && (#[trigger] res@[q2]) is FailAt);
        }
    }
    (fail_fast && failed) || !any_open
}

/// Decides every property still undecided at exhaustion: an undecided
/// `Always` property holds on the whole reachable space, and an undecided
/// `Sometimes` property has no reachable witness.
#[verifier::loop_isolation(false)]
fn resolve_exhausted<M: Model>(m: &M, store: &StateStore<M>, res: &mut Vec<Resolution>)
    requires
        store_wf(*m, store.recs@),
        inits_stored(*m, store.recs@),
        prefix_expanded(*m, store.recs@, store.recs@.len() as int),
        old(res)@.len() == m.prop_count(),
        forall|p: int|
            0 <= p < m.prop_count() ==> res_inv(*m, store.recs@, p, #[trigger] old(res)@[p]),
    ensures
        final(res)@.len() == old(res)@.len(),
        forall|p: int|
            0 <= p < m.prop_count() ==> res_inv(*m, store.recs@, p, #[trigger] final(res)@[p]),
        forall|p: int| 0 <= p < final(res)@.len() ==> !((#[trigger] final(res)@[p]) is Open),
        forall|p: int|
            0 <= p < m.prop_count() ==> (!(old(res)@[p] is Open) ==> (#[trigger] final(res)@[p])
                == old(res)@[p]),
{
    let ghost s = store.recs@;
    let n: usize = res.len();
    let mut p: usize = 0;
    while p < n
        invariant
            store_wf(*m, s),
            s == store.recs@,
            inits_stored(*m, s),
            prefix_expanded(*m, s, s.len() as int),
            n == res@.len(),
            res@.len() == m.prop_count(),
            p <= n,
            forall|q: int| 0 <= q < n ==> res_inv(*m, s, q, #[trigger] res@[q]),
            forall|q: int| 0 <= q < p ==> !((#[trigger] res@[q]) is Open),
            forall|q: int| p <= q < n ==> (#[trigger] res@[q]) == old(res)@[q],
            forall|q: int|
                0 <= q < p ==> (!(old(res)@[q] is Open) ==> (#[trigger] res@[q]) == old(res)@[q]),
        decreases n - p,
    {
        let cur = res[p];
        match cur {
            Resolution::Open => {
                let kind = m.property_kind(p);
                proof {
                    assert(res_inv(*m, s, p as int, Resolution::Open));
                    assert forall|x: M::State, nn: nat|
                        #[trigger] reachable_within(*m, x, nn) implies (m.prop_holds(p as int, x)
                        <==> m.prop_kind(p as int) is Always) by {
                        lemma_exhausted_complete(*m, s, x, nn);
                        let i0 = choose|i0: int| 0 <= i0 < s.len() && #[trigger] s[i0].state == x;
                        assert(m.prop_holds(p as int, s[i0].state) <==> m.prop_kind(p as int)
                            is Always);
                    }
                }
                match kind {
                    PropertyKind::Always => {
                        res.set(p, Resolution::PassExhausted);
                    },
                    PropertyKind::Sometimes => {
                        res.set(p, Resolution::FailExhausted);
                    },
                }
            },
            _ => {},
        }
        p = p + 1;
    }
}

/// Materialises the final report entries from the engine's resolutions,
/// reconstructing a shortest trace for every decided-by-state verdict.
#[verifier::loop_isolation(false)]
fn build_outcomes<M: Model>(m: &M, store: &StateStore<M>, res: &Vec<Resolution>) -> (out: Vec<
    PropertyOutcome<M>,
>)
    requires
        store_wf(*m, store.recs@),
        res@.len() == m.prop_count(),
        forall|p: int| 0 <= p < m.prop_count() ==> res_inv(*m, store.recs@, p, #[trigger] res@[p]),
    ensures
        out@.len() == m.prop_count(),
        forall|p: int| 0 <= p < m.prop_count() ==> outcome_valid(*m, p, #[trigger] out@[p]),
        forall|p: int|
            0 <= p < m.prop_count() ==> (((#[trigger] out@[p]).verdict is Unresolved) <==> res@[p]
                is Open),
        forall|p: int|
            0 <= p < m.prop_count() ==> ((#[trigger] res@[p]) matches Resolution::PassAt(i)
                ==> out@[p].verdict is Pass && out@[p].target == Some(store.recs@[i as int].state)),
        forall|p: int|
            0 <= p < m.prop_count() ==> ((#[trigger] res@[p]) matches Resolution::FailAt(i)
                ==> out@[p].verdict is Fail && out@[p].target == Some(store.recs@[i as int].state)),
        forall|p: int|
            0 <= p < m.prop_count() ==> (res@[p] is PassExhausted ==> (#[trigger] out@[p]).verdict
                is Pass),
        forall|p: int|
            0 <= p < m.prop_count() ==> (res@[p] is FailExhausted ==> (#[trigger] out@[p]).verdict
                is Fail),
{
    let ghost s = store.recs@;
    let n: usize = res.len();
    let mut out: Vec<PropertyOutcome<M>> = Vec::new();
    let mut p: usize = 0;
    while p < n
        invariant
            store_wf(*m, s),
            s == store.recs@,
            n == res@.len(),
            res@.len() == m.prop_count(),
            p <= n,
            out@.len() == p,
            forall|q: int| 0 <= q < n ==> res_inv(*m, s, q, #[trigger] res@[q]),
            forall|q: int| 0 <= q < p ==> outcome_valid(*m, q, #[trigger] out@[q]),
            forall|q: int|
                0 <= q < p ==> (((#[trigger] out@[q]).verdict is Unresolved) <==> res@[q] is Open),
            forall|q: int|
                0 <= q < p ==> ((#[trigger] res@[q]) matches Resolution::PassAt(i) ==> out@[
                    q
                ].verdict is Pass && out@[q].target == Some(s[i as int].state)),
            forall|q: int|
                0 <= q < p ==> ((#[trigger] res@[q]) matches Resolution::FailAt(i) ==> out@[
                    q
                ].verdict is Fail && out@[q].target == Some(s[i as int].state)),
            forall|q: int|
                0 <= q < p ==> (res@[q] is PassExhausted ==> (#[trigger] out@[q]).verdict is Pass),
            forall|q: int|
                0 <= q < p ==> (res@[q] is FailExhausted ==> (#[trigger] out@[q]).verdict is Fail),
        decreases n - p,
    {
        let name = m.property_name(p);
        let kind = m.property_kind(p);
        let cur = res[p];
        let o: PropertyOutcome<M> = match cur {
            Resolution::Open => PropertyOutcome {
                name,
                kind,
                verdict: Verdict::Unresolved,
                target: None,
                trace: None,
            },
            Resolution::PassAt(i) => {
                proof {
                    assert(res_inv(*m, s, p as int, Resolution::PassAt(i)));
                }
                let tr = reconstruct(m, store, i);
                let tgt = m.clone_state(&store.recs[i].state);
                PropertyOutcome {
                    name,
                    kind,
                    verdict: Verdict::Pass,
                    target: Some(tgt),
                    trace: Some(tr),
                }
            },
            Resolution::FailAt(i) => {
                proof {
                    assert(res_inv(*m, s, p as int, Resolution::FailAt(i)));
                }
                let tr = reconstruct(m, store, i);
                let tgt = m.clone_state(&store.recs[i].state);
                PropertyOutcome {
                    name,
                    kind,
                    verdict: Verdict::Fail,
                    target: Some(tgt),
                    trace: Some(tr),
                }
            },
            Resolution::PassExhausted => PropertyOutcome {
                name,
                kind,
                verdict: Verdict::Pass,
                target: None,
                trace: None,
            },
            Resolution::FailExhausted => PropertyOutcome {
                name,
                kind,
                verdict: Verdict::Fail,
                target: None,
                trace: None,
            },
        };
        out.push(o);
        p = p + 1;
    }
    out
}

/// Explores the reachable state space of `m` in breadth-first order and
/// reports a verdict for every registered property.
///
/// The report's outcomes are truthful ([`outcome_valid`]): a failing
/// `Always` property carries a valid counterexample trace of minimal length,
/// a passing `Sometimes` property carries a valid witness trace of minimal
/// length, and a passing `Always` or failing `Sometimes` property is proved
/// over the whole reachable space.  Such a definitive all-space verdict is
/// reported only when the run exhausted the space, so a capped search is
/// never mistaken for a proof; conversely, a run ends without exhaustion
/// only for a stated reason: the state cap was reached, a depth cap was
/// configured, a failing `Always` property stopped a fail-fast run, or every
/// property was already decided.  A reported witness or violating state is
/// the earliest-discovered one ([`earliest_witness`],
/// [`earliest_violation`]).  Every stored state is reachable within its
/// recorded depth and by no shorter path, and when the run exhausts the
/// space, every reachable state is stored and was expanded exactly once.
#[verifier::loop_isolation(false)]
pub fn run<M: Model>(m: &M, config: &Config) -> (r: Report<M>)
    ensures
        r.outcomes@.len() == m.prop_count(),
        forall|p: int| 0 <= p < m.prop_count() ==> outcome_valid(*m, p, #[trigger] r.outcomes@[p]),
        store_wf(*m, r.store.recs@),
        depths_minimal(*m, r.store.recs@),
        forall|i: int|
            0 <= i < r.store.recs@.len() ==> reachable_within(
                *m,
                (#[trigger] r.store.recs@[i]).state,
                r.store.recs@[i].depth as nat,
            ),
        r.states_discovered == r.store.recs@.len(),
        r.states_expanded <= r.states_discovered,
        r.exhausted ==> r.states_expanded == r.states_discovered,
        r.exhausted ==> forall|p: int|
            0 <= p < m.prop_count() ==> !((#[trigger] r.outcomes@[p]).verdict is Unresolved),
        r.exhausted ==> forall|x: M::State, n: nat|
            #[trigger] reachable_within(*m, x, n) ==> stored(r.store.recs@, x),
        !r.exhausted ==> {
            ||| (config.max_states matches Some(ms) && r.states_discovered >= ms)
            ||| config.max_depth is Some
            ||| (config.fail_fast && exists|p: int|
                0 <= p < m.prop_count() && (#[trigger] r.outcomes@[p]).verdict is Fail
                    && m.prop_kind(p) is Always)
            ||| (forall|p: int|
                0 <= p < m.prop_count() ==> !((#[trigger] r.outcomes@[p]).verdict is Unresolved))
        },
        forall|p: int|
            0 <= p < m.prop_count() ==> ((((#[trigger] r.outcomes@[p]).verdict is Pass
                && m.prop_kind(p) is Always) || (r.outcomes@[p].verdict is Fail && m.prop_kind(p)
                is Sometimes)) ==> r.exhausted),
        forall|p: int|
            0 <= p < m.prop_count() ==> (((#[trigger] r.outcomes@[p]).verdict is Pass
                && m.prop_kind(p) is Sometimes) ==> r.outcomes@[p].target is Some
                && earliest_witness(*m, r.store.recs@, p, r.outcomes@[p].target->0)),
        forall|p: int|
            0 <= p < m.prop_count() ==> (((#[trigger] r.outcomes@[p]).verdict is Fail
                && m.prop_kind(p) is Always) ==> r.outcomes@[p].target is Some
                && earliest_violation(*m, r.store.recs@, p, r.outcomes@[p].target->0)),
{
    let nprops: usize = m.property_count();
    let mut res: Vec<Resolution> = Vec::new();
    let mut q: usize = 0;
    while q < nprops
        invariant
            q <= nprops,
            res@.len() == q,
            forall|p: int| 0 <= p < q ==> (#[trigger] res@[p]) is Open,
        decreases nprops - q,
    {
        res.push(Resolution::Open);
        q = q + 1;
    }
    let mut store: StateStore<M> = StateStore::new();
    let mut stop = false;
    let mut capped = false;

    // Seed the store with the initial states, at depth zero.
    let inits = m.init_states();
    let mut k: usize = 0;
    while k < inits.len() && !stop && !capped
        invariant
            store_wf(*m, store.recs@),
            res@.len() == nprops,
            forall|p: int|
                0 <= p < m.prop_count() ==> res_inv(*m, store.recs@, p, #[trigger] res@[p]),
            k <= inits@.len(),
            forall|i: int| 0 <= i < store.recs@.len() ==> (#[trigger] store.recs@[i]).depth == 0,
            forall|j: int| 0 <= j < k ==> stored_within(store.recs@, #[trigger] m.init_seq()[j], 0),
            depths_minimal(*m, store.recs@),
            capped ==> ((config.max_states matches Some(ms) && store.recs@.len() >= ms)
                || config.max_depth is Some),
            stop ==> ((config.fail_fast && exists|p: int|
                0 <= p < res@.len() && (#[trigger] res@[p]) is FailAt) || (forall|p: int|
                0 <= p < res@.len() ==> !((#[trigger] res@[p]) is Open))),
            forall|p: int|
                0 <= p < res@.len() ==> (!((#[trigger] res@[p]) is PassExhausted) && !(res@[p]
                    is FailExhausted)),
        decreases inits@.len() - k,
    {
        let x = m.clone_state(&inits[k]);
        let ghost pre = store.recs@;
        let (is_new, idx) = store.insert_if_absent(m, x, None);
        proof {
            if is_new {
                let rec = store.recs@[store.recs@.len() - 1];
                assert(store.recs@ == pre.push(rec));
                assert(store.recs@.drop_last() =~= pre);
                assert forall|j: int| 0 <= j < k + 1 implies stored_within(
                    store.recs@,
                    #[trigger] m.init_seq()[j],
                    0,
                ) by {
                    if j < k {
                        lemma_stored_within_push(pre, rec, m.init_seq()[j], 0);
                    } else {
                        assert(rec.state == x && rec.depth == 0);
                        assert(store.recs@[store.recs@.len() - 1].state == m.init_seq()[j]);
                    }
                }
                assert forall|i: int, n: nat|
                    0 <= i < store.recs@.len() && n < store.recs@[i].depth implies !(
                reachable_within(*m, store.recs@[i].state, n)) by {
                    assert(store.recs@[i].depth == 0);
                }
            } else {
                let i0 = choose|i0: int| 0 <= i0 < pre.len() && #[trigger] pre[i0].state == x;
                assert(store.recs@[i0].depth == 0);
                assert(stored_within(store.recs@, m.init_seq()[k as int], 0));
            }
        }
        if is_new {
            let stop2 = note_discovery(m, &store, idx, &mut res, config.fail_fast);
            if stop2 {
                stop = true;
            }
            match config.max_states {
                Some(ms) => {
                    if store.len() >= ms {
                        capped = true;
                    }
                },
                None => {},
            }
        }
        k = k + 1;
    }
    proof {
        if !stop && !capped {
            assert(k == inits@.len());
            assert(inits_stored(*m, store.recs@));
        }
        if !stop && !capped && store.recs@.len() > 0 {
            assert forall|x2: M::State, n: nat|
                n <= store.recs@[0].depth as int && #[trigger] reachable_within(
                    *m,
                    x2,
                    n,
                ) implies stored_within(store.recs@, x2, n as int) by {
                if !m.init_seq().contains(x2) {
                    lemma_reachable_destruct(*m, x2, n);
                    assert(false);
                }
                let k2 = choose|k2: int| 0 <= k2 < m.init_seq().len() && m.init_seq()[k2] == x2;
                assert(stored_within(store.recs@, m.init_seq()[k2], 0));
                lemma_stored_within_weaken(store.recs@, x2, 0, n as int);
            }
        }
    }

    // Expand stored states in discovery order, which is depth order.
    let mut head: usize = 0;
    while head < store.len() && !stop && !capped
        invariant
            store_wf(*m, store.recs@),
            head <= store.recs@.len(),
            res@.len() == nprops,
            forall|p: int|
                0 <= p < m.prop_count() ==> res_inv(*m, store.recs@, p, #[trigger] res@[p]),
            prefix_expanded(*m, store.recs@, head as int),
            depths_minimal(*m, store.recs@),
            (!stop && !capped) ==> inits_stored(*m, store.recs@),
            (!stop && !capped && (head as int) < store.recs@.len()) ==> explored_to(
                *m,
                store.recs@,
                store.recs@[head as int].depth as int,
            ),
            (head as int) < store.recs@.len() ==> forall|i: int|
                0 <= i < store.recs@.len() ==> (#[trigger] store.recs@[i]).depth <= store.recs@[
                    head as int
                ].depth + 1,
            capped ==> ((config.max_states matches Some(ms) && store.recs@.len() >= ms)
                || config.max_depth is Some),
            stop ==> ((config.fail_fast && exists|p: int|
                0 <= p < res@.len() && (#[trigger] res@[p]) is FailAt) || (forall|p: int|
                0 <= p < res@.len() ==> !((#[trigger] res@[p]) is Open))),
            forall|p: int|
                0 <= p < res@.len() ==> (!((#[trigger] res@[p]) is PassExhausted) && !(res@[p]
                    is FailExhausted)),
        decreases usize::MAX - head, (if stop || capped { 0int } else { 1int }),
    {
        let d: usize = store.recs[head].depth;
        let mut depth_ok = true;
        match config.max_depth {
            Some(md) => {
                if d >= md {
                    depth_ok = false;
                }
            },
            None => {},
        }
        if !depth_ok {
            capped = true;
        } else {
            let x = m.clone_state(&store.recs[head].state);
            let mut acts: Vec<M::Action> = Vec::new();
            m.actions(&x, &mut acts);
            let na: usize = acts.len();
            let mut kk: usize = 0;
            while kk < acts.len() && !stop && !capped
                invariant
                    store_wf(*m, store.recs@),
                    (head as int) < store.recs@.len(),
                    store.recs@[head as int].state == x,
                    store.recs@[head as int].depth == d,
                    acts@ == m.action_seq(x),
                    kk <= acts@.len(),
                    res@.len() == nprops,
                    forall|p: int|
                        0 <= p < m.prop_count() ==> res_inv(*m, store.recs@, p, #[trigger] res@[p]),
                    prefix_expanded(*m, store.recs@, head as int),
                    depths_minimal(*m, store.recs@),
                    forall|i: int|
                        0 <= i < store.recs@.len() ==> (#[trigger] store.recs@[i]).depth <= d + 1,
                    (!stop && !capped) ==> inits_stored(*m, store.recs@),
                    (!stop && !capped) ==> explored_to(*m, store.recs@, d as int),
                    forall|j: int|
                        0 <= j < kk ==> ((#[trigger] m.next_spec(x, acts@[j])) is None
                            || stored_within(store.recs@, m.next_spec(x, acts@[j])->0, d + 1)),
                    capped ==> ((config.max_states matches Some(ms) && store.recs@.len() >= ms)
                        || config.max_depth is Some),
                    stop ==> ((config.fail_fast && exists|p: int|
                        0 <= p < res@.len() && (#[trigger] res@[p]) is FailAt) || (forall|p: int|
                        0 <= p < res@.len() ==> !((#[trigger] res@[p]) is Open))),
                    forall|p: int|
                        0 <= p < res@.len() ==> (!((#[trigger] res@[p]) is PassExhausted) && !(res@[p]
                            is FailExhausted)),
                decreases acts@.len() - kk,
            {
                let a1 = m.clone_action(&acts[kk]);
                let nxt = m.next_state(&x, a1);
                match nxt {
                    None => {},
                    Some(t) => {
                        let a2 = m.clone_action(&acts[kk]);
                        let ghost pre = store.recs@;
                        proof {
                            assert(m.action_seq(x)[kk as int] == a2);
                            assert(m.action_seq(store.recs@[head as int].state).contains(a2));
                        }
                        let (is_new, idx) = store.insert_if_absent(m, t, Some((head, a2)));
                        proof {
                            if is_new {
                                let rec = store.recs@[store.recs@.len() - 1];
                                assert(store.recs@ == pre.push(rec));
                                assert(store.recs@.drop_last() =~= pre);
                                assert(record_ok(*m, store.recs@, store.recs@.len() - 1));
                                assert(store.recs@[head as int] == pre[head as int]);
                                assert(rec.state == t && rec.depth == d + 1);
                                lemma_bfs_facts_push(*m, pre, rec, head as int, d as int);
                                assert forall|n: nat| n < rec.depth implies !(reachable_within(
                                    *m,
                                    t,
                                    n,
                                )) by {
                                    if reachable_within(*m, t, n) {
                                        assert(n <= d as int);
                                        assert(stored_within(pre, t, n as int));
                                        lemma_stored_within_stored(pre, t, n as int);
                                        assert(false);
                                    }
                                }
                                assert forall|i: int, n: nat|
                                    0 <= i < store.recs@.len() && n < store.recs@[i].depth
                                    implies !(reachable_within(*m, store.recs@[i].state, n)) by {
                                    if i < pre.len() {
                                        assert(store.recs@[i] == pre[i]);
                                    }
                                }
                                assert(stored_within(store.recs@, t, d + 1));
                            } else {
                                let i0 = choose|i0: int|
                                    0 <= i0 < pre.len() && #[trigger] pre[i0].state == t;
                                assert(store.recs@[i0].depth <= d + 1);
                                assert(stored_within(store.recs@, t, d + 1));
                            }
                        }
                        if is_new {
                            let stop2 = note_discovery(m, &store, idx, &mut res, config.fail_fast);
                            if stop2 {
                                stop = true;
                            }
                            match config.max_states {
                                Some(ms) => {
                                    if store.len() >= ms {
                                        capped = true;
                                    }
                                },
                                None => {},
                            }
                        }
                        proof {
                            assert forall|j: int|
                                0 <= j < kk + 1 implies ((#[trigger] m.next_spec(x, acts@[j]))
                                is None || stored_within(
                                store.recs@,
                                m.next_spec(x, acts@[j])->0,
                                d + 1,
                            )) by {
                                if j < kk {
                                    if m.next_spec(x, acts@[j]) is Some {
                                        if store.recs@ != pre {
                                            let rec = store.recs@[store.recs@.len() - 1];
                                            assert(store.recs@ == pre.push(rec));
                                            lemma_stored_within_push(
                                                pre,
                                                rec,
                                                m.next_spec(x, acts@[j])->0,
                                                d + 1,
                                            );
                                        }
                                    }
                                } else {
                                    assert(m.next_spec(x, acts@[j]) == nxt);
                                }
                            }
                        }
                    },
                }
                kk = kk + 1;
            }
            if kk == na && !stop && !capped {
                proof {
                    let s = store.recs@;
                    let h = head as int;
                    let dd = d as int;
                    assert(s[h].state == x && s[h].depth == d);
                    assert forall|k2: int|
                        0 <= k2 < m.action_seq(x).len() && (#[trigger] m.next_spec(
                            x,
                            m.action_seq(x)[k2],
                        )) is Some implies stored_within(
                        s,
                        m.next_spec(x, m.action_seq(x)[k2])->0,
                        dd + 1,
                    ) by {
                        assert((m.next_spec(x, acts@[k2])) is None || stored_within(
                            s,
                            m.next_spec(x, acts@[k2])->0,
                            d + 1,
                        ));
                    }
                    assert(succs_stored(*m, s, s[h].state, dd));
                    assert forall|j: int| 0 <= j < h + 1 implies succs_stored(
                        *m,
                        s,
                        (#[trigger] s[j]).state,
                        s[j].depth as int,
                    ) by {
                        if j == h {
                            assert(s[j].depth == dd);
                        }
                    }
                    assert(prefix_expanded(*m, s, h + 1));
                    if h + 1 < s.len() {
                        let d2 = s[h + 1].depth as int;
                        assert(s[h].depth <= s[h + 1].depth);
                        assert(d2 <= dd + 1);
                        assert forall|x2: M::State, n: nat|
                            n <= d2 && #[trigger] reachable_within(*m, x2, n) implies stored_within(
                            s,
                            x2,
                            n as int,
                        ) by {
                            if n <= dd {
                                assert(stored_within(s, x2, n as int));
                            } else {
                                if m.init_seq().contains(x2) {
                                    let k3 = choose|k3: int|
                                        0 <= k3 < m.init_seq().len() && m.init_seq()[k3] == x2;
                                    assert(stored_within(s, m.init_seq()[k3], 0));
                                    lemma_stored_within_weaken(s, x2, 0, n as int);
                                } else {
                                    lemma_reachable_destruct(*m, x2, n);
                                    let t2 = choose|t2: M::State|
                                        #[trigger] reachable_within(*m, t2, (n - 1) as nat)
                                            && has_edge(*m, t2, x2);
                                    assert((n - 1) as nat <= dd);
                                    assert(stored_within(s, t2, ((n - 1) as nat) as int));
                                    let i1 = choose|i1: int|
                                        0 <= i1 < s.len() && #[trigger] s[i1].state == t2 && s[
                                            i1
                                        ].depth <= ((n - 1) as nat) as int;
                                    if i1 > h {
                                        assert(s[h + 1].depth <= s[i1].depth);
                                        assert(false);
                                    }
                                    assert(succs_stored(*m, s, s[i1].state, s[i1].depth as int));
                                    let k4 = choose|k4: int|
                                        0 <= k4 < m.action_seq(t2).len() && #[trigger] m.next_spec(
                                            t2,
                                            m.action_seq(t2)[k4],
                                        ) == Some(x2);
                                    assert((m.next_spec(
                                        s[i1].state,
                                        m.action_seq(s[i1].state)[k4],
                                    )) is Some);
                                    assert(stored_within(s, x2, s[i1].depth + 1));
                                    lemma_stored_within_weaken(s, x2, s[i1].depth + 1, n as int);
                                }
                            }
                        }
                        assert(explored_to(*m, s, d2));
                    }
                }
                head = head + 1;
            }
        }
    }

    let exhausted = !stop && !capped && head == store.len();
    if exhausted {
        resolve_exhausted(m, &store, &mut res);
    }
    let outcomes = build_outcomes(m, &store, &res);
    proof {
        assert forall|i: int| 0 <= i < store.recs@.len() implies reachable_within(
            *m,
            (#[trigger] store.recs@[i]).state,
            store.recs@[i].depth as nat,
        ) by {
            crate::store::lemma_stored_reachable(*m, store.recs@, i);
        }
        if exhausted {
            assert forall|x2: M::State, n: nat|
                #[trigger] reachable_within(*m, x2, n) implies stored(store.recs@, x2) by {
                lemma_exhausted_complete(*m, store.recs@, x2, n);
            }
        }
    }
    let discovered: usize = store.len();
    Report {
        outcomes,
        store,
        states_discovered: discovered,
        states_expanded: head,
        exhausted,
    }
}

} // verus!
