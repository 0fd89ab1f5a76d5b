//! The deduplicating state store.
//!
//! Discovered states live in one growing vector, in discovery order.  Each
//! record keeps the state, its breadth-first discovery depth, and the first
//! predecessor found: the index of the record it was expanded from, with the
//! action taken.  Records are never removed or changed after their first
//! write, so a state's predecessor is fixed at first discovery.

use vstd::prelude::*;

use crate::model::Model;
use crate::reach::has_edge;

verus! {

/// The discovery record of one stored state.
pub struct Record<M: Model> {
    /// The discovered state itself.
    pub state: M::State,
    /// Distance in transitions from an initial state, assigned in
    /// breadth-first order.
    pub depth: usize,
    /// `None` for an initial state; otherwise the store index of the first
    /// predecessor and the action that led here.
    pub pred: Option<(usize, M::Action)>,
}

/// Record `i` of `s` is internally consistent: its depth fits below its
/// index, an initial record has depth zero and an initial state, and any
/// other record points back to an earlier record one depth level up, via a
/// generated, applicable action.
pub open spec fn record_ok<M: Model>(m: M, s: Seq<Record<M>>, i: int) -> bool {
    &&& s[i].depth <= i
    &&& match s[i].pred {
        None => s[i].depth == 0 && m.init_seq().contains(s[i].state),
        Some((j, a)) => {
            &&& 0 <= (j as int) < i
            &&& s[j as int].depth + 1 == s[i].depth
            &&& m.action_seq(s[j as int].state).contains(a)
            &&& m.next_spec(s[j as int].state, a) == Some(s[i].state)
        },
    }
}

/// Well-formedness of the whole store: depths never decrease along the
/// discovery order, every record is consistent, and no state is stored
/// twice.
pub open spec fn store_wf<M: Model>(m: M, s: Seq<Record<M>>) -> bool {
    &&& forall|i: int, j: int|
        0 <= i <= j < s.len() ==> #[trigger] s[i].depth <= #[trigger] s[j].depth
    &&& forall|i: int| 0 <= i < s.len() ==> #[trigger] record_ok(m, s, i)
    &&& forall|i: int, j: int|
        0 <= i < j < s.len() ==> #[trigger] s[i].state != #[trigger] s[j].state
}

/// State `x` is stored somewhere in `s`.
pub open spec fn stored<M: Model>(s: Seq<Record<M>>, x: M::State) -> bool {
    exists|i: int| 0 <= i < s.len() && #[trigger] s[i].state == x
}

/// State `x` is stored in `s` with depth at most `d`.
pub open spec fn stored_within<M: Model>(s: Seq<Record<M>>, x: M::State, d: int) -> bool {
    exists|i: int| 0 <= i < s.len() && #[trigger] s[i].state == x && s[i].depth <= d
}

/// The depth assigned to a record inserted with predecessor `pred`.
pub open spec fn pred_depth<M: Model>(s: Seq<Record<M>>, pred: Option<(usize, M::Action)>) -> int {
    match pred {
        None => 0,
        Some((j, _)) => s[j as int].depth + 1,
    }
}

/// The deduplicating repository of discovered states.
pub struct StateStore<M: Model> {
    /// The discovery records, in discovery order.
    pub recs: Vec<Record<M>>,
}

impl<M: Model> StateStore<M> {
    /// An empty store.
    pub fn new() -> (r: Self)
        ensures
            r.recs@.len() == 0,
    {
        StateStore { recs: Vec::new() }
    }

    /// How many distinct states have been discovered.
    pub fn len(&self) -> (n: usize)
        ensures
            n == self.recs@.len(),
    {
        self.recs.len()
    }

    /// The store index of `x`, if `x` has been discovered.
    pub fn find(&self, m: &M, x: &M::State) -> (r: Option<usize>)
        ensures
            match r {
                Some(i) => i < self.recs@.len() && self.recs@[i as int].state == *x,
                None => !stored(self.recs@, *x),
            },
    {
        let mut i: usize = 0;
        while i < self.recs.len()
            invariant
                i <= self.recs@.len(),
                forall|j: int| 0 <= j < i ==> #[trigger] self.recs@[j].state != *x,
            decreases self.recs@.len() - i,
        {
            if m.state_eq(&self.recs[i].state, x) {
                return Some(i);
            }
            i = i + 1;
        }
        None
    }

    /// Whether `x` has been discovered.
    pub fn contains_state(&self, m: &M, x: &M::State) -> (r: bool)
        ensures
            r == stored(self.recs@, *x),
    {
        match self.find(m, x) {
            Some(_) => true,
            None => false,
        }
    }

    /// Inserts `x` unless an equal state is already stored.  Returns whether
    /// `x` was new, and the index under which `x` is stored either way.
    ///
    /// The caller supplies the discovery provenance in `pred`: `None` seeds
    /// an initial state (only allowed while every stored record still has
    /// depth zero), `Some((j, a))` records discovery from expanding record
    /// `j` with action `a`.  On rediscovery `pred` is dropped: the first
    /// record stands.
    pub fn insert_if_absent(&mut self, m: &M, x: M::State, pred: Option<(usize, M::Action)>) -> (r:
        (bool, usize))
        requires
            store_wf(*m, old(self).recs@),
            match pred {
                None => m.init_seq().contains(x) && forall|i: int|
                    0 <= i < old(self).recs@.len() ==> #[trigger] old(self).recs@[i].depth == 0,
                Some((j, a)) => {
                    &&& (j as int) < old(self).recs@.len()
                    &&& m.action_seq(old(self).recs@[j as int].state).contains(a)
                    &&& m.next_spec(old(self).recs@[j as int].state, a) == Some(x)
                    &&& forall|i: int|
                        0 <= i < old(self).recs@.len() ==> #[trigger] old(self).recs@[i].depth
                            <= old(self).recs@[j as int].depth + 1
                },
            },
        ensures
            store_wf(*m, final(self).recs@),
            r.0 == !stored(old(self).recs@, x),
            !r.0 ==> final(self).recs@ == old(self).recs@ && (r.1 as int) < final(self).recs@.len()
                && final(self).recs@[r.1 as int].state == x,
            r.0 ==> r.1 == old(self).recs@.len() && final(self).recs@ == old(self).recs@.push(
                (Record { state: x, depth: pred_depth(old(self).recs@, pred) as usize, pred }),
            ),
    {
        match self.find(m, &x) {
            Some(i) => (false, i),
            None => {
                let ghost old_recs = self.recs@;
                let idx: usize = self.recs.len();
                let depth: usize = match &pred {
                    None => 0,
                    Some(p) => {
                        proof {
                            assert(record_ok(*m, self.recs@, p.0 as int));
                        }
                        self.recs[p.0].depth + 1
                    },
                };
                self.recs.push(Record { state: x, depth, pred });
                proof {
                    let s = self.recs@;
                    assert forall|i: int| 0 <= i < s.len() implies #[trigger] record_ok(
                        *m,
                        s,
                        i,
                    ) by {
                        if i < old_recs.len() {
                            assert(record_ok(*m, old_recs, i));
                            assert(s[i] == old_recs[i]);
                            match old_recs[i].pred {
                                None => {},
                                Some((j, _)) => {
                                    assert(s[j as int] == old_recs[j as int]);
                                },
                            }
                        } else {
                            match pred {
                                None => {},
                                Some((j, _)) => {
                                    assert(s[j as int] == old_recs[j as int]);
                                    assert(record_ok(*m, old_recs, j as int));
                                },
                            }
                        }
                    }
                    assert forall|i: int, j: int| 0 <= i <= j < s.len() implies #[trigger] s[i].depth
                        <= #[trigger] s[j].depth by {
                        if j < old_recs.len() {
                            assert(s[i] == old_recs[i] && s[j] == old_recs[j]);
                        } else if i < old_recs.len() {
                            assert(s[i] == old_recs[i]);
                            match pred {
                                None => {},
                                Some((k, _)) => {
                                    assert(old_recs[i].depth <= old_recs[k as int].depth + 1);
                                },
                            }
                        }
                    }
                }
                (true, idx)
            },
        }
    }
}

/// No state is ever stored twice: every record of a well-formed store holds
/// a state distinct from every other record's.  Since the engine expands the
/// store's records one by one, each distinct state is expanded at most once.
pub proof fn lemma_store_states_distinct<M: Model>(m: M, s: Seq<Record<M>>)
    requires
        store_wf(m, s),
    ensures
        forall|i: int, j: int|
            0 <= i < j < s.len() ==> #[trigger] s[i].state != #[trigger] s[j].state,
{
}

/// Every stored state of a well-formed store is an initial state or is
/// entered by a generated, applicable transition from another stored state:
/// an action the transition function declares inapplicable never introduces
/// a state or an edge into the store.
pub proof fn lemma_stored_state_justified<M: Model>(m: M, s: Seq<Record<M>>, i: int)
    requires
        store_wf(m, s),
        0 <= i < s.len(),
    ensures
        m.init_seq().contains(s[i].state) || exists|j: int|
            0 <= j < s.len() && #[trigger] has_edge(m, s[j].state, s[i].state),
{
    assert(record_ok(m, s, i));
    match s[i].pred {
        None => {},
        Some((j, a)) => {
            let acts = m.action_seq(s[j as int].state);
            let k = choose|k: int| 0 <= k < acts.len() && acts[k] == a;
            assert(m.next_spec(s[j as int].state, acts[k]) == Some(s[i].state));
            assert(has_edge(m, s[j as int].state, s[i].state));
        },
    }
}

/// Every stored state of a well-formed store is reachable, within its
/// recorded depth, by following the recorded predecessor chain.
pub proof fn lemma_stored_reachable<M: Model>(m: M, s: Seq<Record<M>>, i: int)
    requires
        store_wf(m, s),
        0 <= i < s.len(),
    ensures
        crate::reach::reachable_within(m, s[i].state, s[i].depth as nat),
    decreases i,
{
    assert(record_ok(m, s, i));
    match s[i].pred {
        None => {
            crate::reach::lemma_init_reachable(m, s[i].state, s[i].depth as nat);
        },
        Some((j, a)) => {
            lemma_stored_reachable(m, s, j as int);
            let acts = m.action_seq(s[j as int].state);
            let k = choose|k: int| 0 <= k < acts.len() && acts[k] == a;
            assert(m.next_spec(s[j as int].state, acts[k]) == Some(s[i].state));
            assert(has_edge(m, s[j as int].state, s[i].state));
            crate::reach::lemma_reachable_step(
                m,
                s[j as int].state,
                s[i].state,
                s[j as int].depth as nat,
            );
            assert(s[j as int].depth as nat + 1 == s[i].depth as nat);
        },
    }
}

} // verus!
