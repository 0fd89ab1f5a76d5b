use modelcheck::engine::{run, Config, Verdict};
use modelcheck::model::{Model, PropertyKind};
use modelcheck::test_util::{
    BinaryClock, BinaryClockAction, BinaryClockState, Counter, CounterAction, Guess,
    LinearEquation,
};

fn exhaustive() -> Config {
    let mut c = Config::new();
    c.fail_fast = false;
    c
}

#[test]
fn binary_clock_invariant_passes_with_two_states() {
    let m = BinaryClock;
    let report = run(&m, &Config::new());
    assert!(report.exhausted);
    assert_eq!(report.states_discovered, 2);
    assert_eq!(report.states_expanded, 2);
    assert_eq!(report.outcomes.len(), 1);
    let o = &report.outcomes[0];
    assert_eq!(o.name, "in [0, 1]");
    assert_eq!(o.kind, PropertyKind::Always);
    assert_eq!(o.verdict, Verdict::Pass);
    assert!(o.target.is_none());
    assert!(o.trace.is_none());
    assert!(report.store.contains_state(&m, &0));
    assert!(report.store.contains_state(&m, &1));
}

#[test]
fn linear_equation_witness_at_depth_two() {
    let m = LinearEquation { a: 1, b: 1, c: 2 };
    let report = run(&m, &Config::new());
    assert_eq!(report.outcomes.len(), 1);
    let o = &report.outcomes[0];
    assert_eq!(o.name, "solvable");
    assert_eq!(o.kind, PropertyKind::Sometimes);
    assert_eq!(o.verdict, Verdict::Pass);
    assert_eq!(o.target, Some((2, 0)));
    let trace = o.trace.as_ref().unwrap();
    assert_eq!(trace.len(), 2);
    assert_eq!(trace[0], ((0, 0), Guess::IncreaseX));
    assert_eq!(trace[1], ((1, 0), Guess::IncreaseX));
}

#[test]
fn linear_equation_witness_at_depth_zero() {
    let m = LinearEquation { a: 1, b: 1, c: 0 };
    let report = run(&m, &Config::new());
    let o = &report.outcomes[0];
    assert_eq!(o.verdict, Verdict::Pass);
    assert_eq!(o.target, Some((0, 0)));
    assert_eq!(o.trace.as_ref().unwrap().len(), 0);
    assert_eq!(report.states_discovered, 1);
    assert_eq!(report.states_expanded, 0);
}

#[test]
fn counter_failure_at_depth_five_has_trace_of_exactly_five() {
    let m = Counter { limit: 5 };
    let report = run(&m, &Config::new());
    assert!(!report.exhausted);
    let o = &report.outcomes[1];
    assert_eq!(o.name, "below limit");
    assert_eq!(o.kind, PropertyKind::Always);
    assert_eq!(o.verdict, Verdict::Fail);
    assert_eq!(o.target, Some(5));
    let trace = o.trace.as_ref().unwrap();
    assert_eq!(trace.len(), 5);
    for (i, step) in trace.iter().enumerate() {
        assert_eq!(*step, (i as u8, CounterAction::Tick));
    }
    // Fail-fast left the never-failing invariant undecided.
    assert_eq!(report.outcomes[0].verdict, Verdict::Unresolved);
    assert!(report.outcomes[0].target.is_none());
    assert!(report.outcomes[0].trace.is_none());
    // The witness found in the same state is still reported.
    assert_eq!(report.outcomes[2].verdict, Verdict::Pass);
    assert_eq!(report.outcomes[2].target, Some(5));
    assert_eq!(report.outcomes[2].trace.as_ref().unwrap().len(), 5);
}

#[test]
fn counter_exhaustive_run_decides_every_property() {
    let m = Counter { limit: 5 };
    let report = run(&m, &exhaustive());
    assert!(report.exhausted);
    assert_eq!(report.states_discovered, 6);
    assert_eq!(report.states_expanded, 6);
    assert_eq!(report.outcomes[0].verdict, Verdict::Pass);
    assert_eq!(report.outcomes[1].verdict, Verdict::Fail);
    assert_eq!(report.outcomes[2].verdict, Verdict::Pass);
    assert_eq!(report.outcomes[3].verdict, Verdict::Fail);
    // The two exhaustion verdicts carry no trace.
    assert!(report.outcomes[0].trace.is_none());
    assert!(report.outcomes[3].trace.is_none());
    // The failure and the witness keep their shortest traces.
    assert_eq!(report.outcomes[1].trace.as_ref().unwrap().len(), 5);
    assert_eq!(report.outcomes[2].trace.as_ref().unwrap().len(), 5);
}

#[test]
fn inapplicable_actions_add_no_states() {
    // Every state also generates `Stall`, which is never applicable; the
    // store must hold exactly the six counter values and nothing else.
    let m = Counter { limit: 5 };
    let report = run(&m, &exhaustive());
    assert_eq!(report.states_discovered, 6);
    for v in 0..=5u8 {
        assert!(report.store.contains_state(&m, &v));
    }
    assert!(!report.store.contains_state(&m, &6));
    assert!(!report.store.contains_state(&m, &7));
}

#[test]
fn each_state_expanded_exactly_once() {
    // The clock rediscovers both states from each other; the counter offers
    // a dead end at the limit.  In both cases the number of expansions
    // equals the number of distinct states after exhaustion.
    let clock_report = run(&BinaryClock, &exhaustive());
    assert!(clock_report.exhausted);
    assert_eq!(clock_report.states_expanded, clock_report.states_discovered);
    let counter_report = run(&Counter { limit: 3 }, &exhaustive());
    assert!(counter_report.exhausted);
    assert_eq!(counter_report.states_expanded, counter_report.states_discovered);
}

#[test]
fn runs_are_deterministic() {
    let m = LinearEquation { a: 1, b: 1, c: 2 };
    let first = run(&m, &Config::new());
    let second = run(&m, &Config::new());
    assert_eq!(first.states_discovered, second.states_discovered);
    assert_eq!(first.states_expanded, second.states_expanded);
    assert_eq!(first.exhausted, second.exhausted);
    assert_eq!(first.outcomes.len(), second.outcomes.len());
    for (a, b) in first.outcomes.iter().zip(second.outcomes.iter()) {
        assert_eq!(a.name, b.name);
        assert_eq!(a.kind, b.kind);
        assert_eq!(a.verdict, b.verdict);
        assert_eq!(a.target, b.target);
        assert_eq!(a.trace, b.trace);
    }
    // A different worker count changes nothing either.
    let mut wide = Config::new();
    wide.workers = 8;
    let third = run(&m, &wide);
    assert_eq!(first.outcomes[0].target, third.outcomes[0].target);
    assert_eq!(first.states_discovered, third.states_discovered);
}

#[test]
fn max_states_cap_reports_incomplete() {
    let m = Counter { limit: 10 };
    let mut c = Config::new();
    c.max_states = Some(3);
    let report = run(&m, &c);
    assert!(!report.exhausted);
    assert_eq!(report.states_discovered, 3);
    for o in report.outcomes.iter() {
        assert_eq!(o.verdict, Verdict::Unresolved);
    }
}

#[test]
fn max_depth_cap_reports_incomplete() {
    let m = Counter { limit: 10 };
    let mut c = Config::new();
    c.max_depth = Some(2);
    let report = run(&m, &c);
    assert!(!report.exhausted);
    assert_eq!(report.states_discovered, 3);
    assert!(report.store.contains_state(&m, &2));
    assert!(!report.store.contains_state(&m, &3));
    for o in report.outcomes.iter() {
        assert_eq!(o.verdict, Verdict::Unresolved);
    }
}

#[test]
fn capped_search_never_mistaken_for_a_proof() {
    // No (x, y) solves 2x + 2y = 1 over u8: the left side is always even.
    // A Sometimes property may Fail only at full exhaustion, so a run capped
    // below the 65536-state space must leave it Unresolved, not Fail.
    let m = LinearEquation { a: 2, b: 2, c: 1 };
    let mut c = Config::new();
    c.max_states = Some(10);
    let report = run(&m, &c);
    assert!(!report.exhausted);
    assert_eq!(report.states_discovered, 10);
    assert_eq!(report.outcomes[0].verdict, Verdict::Unresolved);
}

#[test]
fn reported_witness_is_the_first_discovered() {
    // (2,0) and (1,1) and (0,2) all satisfy x + y = 2 at depth 2; the store
    // keeps discovery order, and the reported witness is the earliest
    // satisfying record.
    let m = LinearEquation { a: 1, b: 1, c: 2 };
    let report = run(&m, &Config::new());
    let witness = report.outcomes[0].target.unwrap();
    let store = &report.store;
    let mut first: Option<(u8, u8)> = None;
    for i in 0..store.len() {
        let (x, y) = store.recs[i].state;
        if first.is_none() && (x as u32 + y as u32) % 256 == 2 {
            first = Some((x, y));
        }
    }
    assert_eq!(first, Some(witness));
    assert_eq!(witness, (2, 0));
}

#[test]
fn counter_at_limit_zero_fails_immediately() {
    let m = Counter { limit: 0 };
    let report = run(&m, &Config::new());
    let o = &report.outcomes[1];
    assert_eq!(o.verdict, Verdict::Fail);
    assert_eq!(o.target, Some(0));
    assert_eq!(o.trace.as_ref().unwrap().len(), 0);
    assert_eq!(report.outcomes[2].verdict, Verdict::Pass);
}

#[test]
fn clock_model_behaves_as_described() {
    let m = BinaryClock;
    let low: BinaryClockState = 0;
    let high: BinaryClockState = 1;
    assert_eq!(m.init_states(), vec![low, high]);
    let mut acts = Vec::new();
    m.actions(&0, &mut acts);
    assert_eq!(acts, vec![BinaryClockAction::GoHigh]);
    acts.clear();
    m.actions(&1, &mut acts);
    assert_eq!(acts, vec![BinaryClockAction::GoLow]);
    assert_eq!(m.next_state(&0, BinaryClockAction::GoHigh), Some(1));
    assert_eq!(m.next_state(&1, BinaryClockAction::GoLow), Some(0));
    assert_eq!(m.property_count(), 1);
    assert!(m.eval_property(0, &0));
    assert!(m.eval_property(0, &1));
    assert!(!m.eval_property(0, &2));
    assert!(!m.eval_property(0, &-1));
}

#[test]
fn linear_equation_model_wraps_like_u8_arithmetic() {
    let m = LinearEquation { a: 1, b: 1, c: 0 };
    // 255 + 1 wraps to 0, so (255, 1) solves x + y = 0 over u8.
    assert!(m.eval_property(0, &(255, 1)));
    assert!(!m.eval_property(0, &(255, 0)));
    assert_eq!(m.next_state(&(255, 7), Guess::IncreaseX), Some((0, 7)));
    assert_eq!(m.next_state(&(3, 255), Guess::IncreaseY), Some((3, 0)));
    let m2 = LinearEquation { a: 2, b: 3, c: 1 };
    // 2*130 + 3*255 = 1025 = 4*256 + 1.
    assert!(m2.eval_property(0, &(130, 255)));
}

#[test]
fn counter_model_rejects_inapplicable_actions() {
    let m = Counter { limit: 2 };
    assert_eq!(m.next_state(&0, CounterAction::Tick), Some(1));
    assert_eq!(m.next_state(&2, CounterAction::Tick), None);
    assert_eq!(m.next_state(&0, CounterAction::Stall), None);
    assert_eq!(m.next_state(&1, CounterAction::Stall), None);
    assert_eq!(m.property_count(), 4);
    assert_eq!(m.property_kind(0), PropertyKind::Always);
    assert_eq!(m.property_kind(2), PropertyKind::Sometimes);
}

#[test]
fn store_records_shortest_depths() {
    let m = LinearEquation { a: 1, b: 1, c: 2 };
    let report = run(&m, &exhaustive());
    // The witness (2, 0) lies at depth 2 even though longer routes exist.
    let store = &report.store;
    let mut found = false;
    for i in 0..store.len() {
        if store.recs[i].state == (2, 0) {
            assert_eq!(store.recs[i].depth, 2);
            found = true;
        }
        if store.recs[i].state == (0, 0) {
            assert_eq!(store.recs[i].depth, 0);
        }
        if store.recs[i].state == (1, 0) {
            assert_eq!(store.recs[i].depth, 1);
        }
    }
    assert!(found);
}
