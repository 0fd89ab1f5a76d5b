//! Utilities for tests: small system descriptions that exercise the engine.

use vstd::prelude::*;

use crate::model::{Model, PropertyKind};

verus! {

/// A machine that cycles between two states.
#[derive(Clone, Copy)]
pub struct BinaryClock;

/// The two moves of the clock.
#[derive(Clone, Copy, Debug, PartialEq, Eq, Structural)]
pub enum BinaryClockAction {
    GoLow,
    GoHigh,
}

/// The clock's state: zero or one.
pub type BinaryClockState = i8;

impl Model for BinaryClock {
    type State = BinaryClockState;

    type Action = BinaryClockAction;

    open spec fn init_seq(&self) -> Seq<i8> {
        seq![0i8, 1i8]
    }

    open spec fn action_seq(&self, s: i8) -> Seq<BinaryClockAction> {
        if s == 0 {
            seq![BinaryClockAction::GoHigh]
        } else {
            seq![BinaryClockAction::GoLow]
        }
    }

    open spec fn next_spec(&self, s: i8, a: BinaryClockAction) -> Option<i8> {
        match a {
            BinaryClockAction::GoLow => Some(0i8),
            BinaryClockAction::GoHigh => Some(1i8),
        }
    }

    open spec fn prop_count(&self) -> nat {
        1
    }

    open spec fn prop_kind(&self, p: int) -> PropertyKind {
        PropertyKind::Always
    }

    open spec fn prop_holds(&self, p: int, s: i8) -> bool {
        0 <= s <= 1
    }

    open spec fn prop_name(&self, p: int) -> Seq<char> {
        "in [0, 1]"@
    }

    fn init_states(&self) -> (r: Vec<i8>) {
        let mut r: Vec<i8> = Vec::new();
        r.push(0);
        r.push(1);
        proof {
            assert(r@ =~= self.init_seq());
        }
        r
    }

    fn actions(&self, state: &i8, acts: &mut Vec<BinaryClockAction>) {
        if *state == 0 {
            acts.push(BinaryClockAction::GoHigh);
        } else {
            acts.push(BinaryClockAction::GoLow);
        }
        proof {
            assert(acts@ =~= old(acts)@ + self.action_seq(*state));
        }
    }

    fn next_state(&self, _state: &i8, action: BinaryClockAction) -> (r: Option<i8>) {
        match action {
            BinaryClockAction::GoLow => Some(0),
            BinaryClockAction::GoHigh => Some(1),
        }
    }

    fn property_count(&self) -> (n: usize) {
        1
    }

    fn property_kind(&self, p: usize) -> (k: PropertyKind) {
        PropertyKind::Always
    }

    fn property_name(&self, p: usize) -> (name: String) {
        let name = "in [0, 1]".to_string();
        proof {
            vstd::string::to_string_from_display_ensures_for_str("in [0, 1]", name);
        }
        name
    }

    fn eval_property(&self, p: usize, state: &i8) -> (r: bool) {
        0 <= *state && *state <= 1
    }

    fn state_eq(&self, a: &i8, b: &i8) -> (r: bool) {
        *a == *b
    }

    fn clone_state(&self, s: &i8) -> (r: i8) {
        *s
    }

    fn clone_action(&self, a: &BinaryClockAction) -> (r: BinaryClockAction) {
        *a
    }
}

/// A system that solves a linear Diophantine equation in `u8`.
///
/// Given `a`, `b`, and `c`, finds `x` and `y` such that `a*x + b*y = c`
/// where all values are in `u8`, with wrapping arithmetic.
pub struct LinearEquation {
    /// Coefficient of `x`.
    pub a: u8,
    /// Coefficient of `y`.
    pub b: u8,
    /// The right-hand side.
    pub c: u8,
}

/// The two moves of the guesser.
#[derive(Clone, Copy, Debug, PartialEq, Eq, Structural)]
pub enum Guess {
    IncreaseX,
    IncreaseY,
}

/// Increment with 8-bit wrap-around.
pub open spec fn wrap_inc(x: u8) -> u8 {
    if x == 255 {
        0
    } else {
        (x + 1) as u8
    }
}

impl Model for LinearEquation {
    type State = (u8, u8);

    type Action = Guess;

    open spec fn init_seq(&self) -> Seq<(u8, u8)> {
        seq![(0u8, 0u8)]
    }

    open spec fn action_seq(&self, s: (u8, u8)) -> Seq<Guess> {
        seq![Guess::IncreaseX, Guess::IncreaseY]
    }

    open spec fn next_spec(&self, s: (u8, u8), a: Guess) -> Option<(u8, u8)> {
        match a {
            Guess::IncreaseX => Some((wrap_inc(s.0), s.1)),
            Guess::IncreaseY => Some((s.0, wrap_inc(s.1))),
        }
    }

    open spec fn prop_count(&self) -> nat {
        1
    }

    open spec fn prop_kind(&self, p: int) -> PropertyKind {
        PropertyKind::Sometimes
    }

    open spec fn prop_holds(&self, p: int, s: (u8, u8)) -> bool {
        (self.a * s.0 + self.b * s.1) % 256 == self.c as int
    }

    open spec fn prop_name(&self, p: int) -> Seq<char> {
        "solvable"@
    }

    fn init_states(&self) -> (r: Vec<(u8, u8)>) {
        let mut r: Vec<(u8, u8)> = Vec::new();
        r.push((0, 0));
        proof {
            assert(r@ =~= self.init_seq());
        }
        r
    }

    fn actions(&self, state: &(u8, u8), acts: &mut Vec<Guess>) {
        acts.push(Guess::IncreaseX);
        acts.push(Guess::IncreaseY);
        proof {
            assert(acts@ =~= old(acts)@ + self.action_seq(*state));
        }
    }

    fn next_state(&self, state: &(u8, u8), action: Guess) -> (r: Option<(u8, u8)>) {
        let (x, y) = *state;
        match action {
            Guess::IncreaseX => Some((x.wrapping_add(1), y)),
            Guess::IncreaseY => Some((x, y.wrapping_add(1))),
        }
    }

    fn property_count(&self) -> (n: usize) {
        1
    }

    fn property_kind(&self, p: usize) -> (k: PropertyKind) {
        PropertyKind::Sometimes
    }

    fn property_name(&self, p: usize) -> (name: String) {
        let name = "solvable".to_string();
        proof {
            vstd::string::to_string_from_display_ensures_for_str("solvable", name);
        }
        name
    }

    fn eval_property(&self, p: usize, state: &(u8, u8)) -> (r: bool) {
        let (x, y) = *state;
        proof {
            assert((self.a as u32) * (x as u32) <= 65025 && (self.b as u32) * (y as u32) <= 65025
                && (self.a as u32) * (x as u32) == self.a * x && (self.b as u32) * (y as u32)
                == self.b * y) by (nonlinear_arith)
                requires
                    self.a <= 255,
                    x <= 255,
                    self.b <= 255,
                    y <= 255,
            ;
        }
        let ax: u32 = (self.a as u32) * (x as u32);
        let by: u32 = (self.b as u32) * (y as u32);
        let v: u32 = ax + by;
        (v % 256) == (self.c as u32)
    }

    fn state_eq(&self, a: &(u8, u8), b: &(u8, u8)) -> (r: bool) {
        a.0 == b.0 && a.1 == b.1
    }

    fn clone_state(&self, s: &(u8, u8)) -> (r: (u8, u8)) {
        *s
    }

    fn clone_action(&self, a: &Guess) -> (r: Guess) {
        *a
    }
}

/// A bounded counter that steps from zero towards `limit` and also offers an
/// action that is never applicable, so transitions through it must leave no
/// mark on a run.
pub struct Counter {
    /// The largest value the counter reaches; the single path to it has
    /// exactly `limit` transitions.
    pub limit: u8,
}

/// The moves of the counter.
#[derive(Clone, Copy, Debug, PartialEq, Eq, Structural)]
pub enum CounterAction {
    /// Advance by one, applicable strictly below the limit.
    Tick,
    /// Generated from every state, applicable in none.
    Stall,
}

impl Model for Counter {
    type State = u8;

    type Action = CounterAction;

    open spec fn init_seq(&self) -> Seq<u8> {
        seq![0u8]
    }

    open spec fn action_seq(&self, s: u8) -> Seq<CounterAction> {
        seq![CounterAction::Tick, CounterAction::Stall]
    }

    open spec fn next_spec(&self, s: u8, a: CounterAction) -> Option<u8> {
        match a {
            CounterAction::Tick => if s < self.limit {
                Some((s + 1) as u8)
            } else {
                None
            },
            CounterAction::Stall => None,
        }
    }

    open spec fn prop_count(&self) -> nat {
        4
    }

    open spec fn prop_kind(&self, p: int) -> PropertyKind {
        if p == 0 || p == 1 {
            PropertyKind::Always
        } else {
            PropertyKind::Sometimes
        }
    }

    open spec fn prop_holds(&self, p: int, s: u8) -> bool {
        if p == 0 {
            s <= self.limit
        } else if p == 1 {
            s < self.limit
        } else if p == 2 {
            s == self.limit
        } else {
            s > self.limit
        }
    }

    open spec fn prop_name(&self, p: int) -> Seq<char> {
        if p == 0 {
            "within limit"@
        } else if p == 1 {
            "below limit"@
        } else if p == 2 {
            "reaches limit"@
        } else {
            "beyond limit"@
        }
    }

    fn init_states(&self) -> (r: Vec<u8>) {
        let mut r: Vec<u8> = Vec::new();
        r.push(0);
        proof {
            assert(r@ =~= self.init_seq());
        }
        r
    }

    fn actions(&self, state: &u8, acts: &mut Vec<CounterAction>) {
        acts.push(CounterAction::Tick);
        acts.push(CounterAction::Stall);
        proof {
            assert(acts@ =~= old(acts)@ + self.action_seq(*state));
        }
    }

    fn next_state(&self, state: &u8, action: CounterAction) -> (r: Option<u8>) {
        match action {
            CounterAction::Tick => if *state < self.limit {
                Some(*state + 1)
            } else {
                None
            },
            CounterAction::Stall => None,
        }
    }

    fn property_count(&self) -> (n: usize) {
        4
    }

    fn property_kind(&self, p: usize) -> (k: PropertyKind) {
        if p == 0 || p == 1 {
            PropertyKind::Always
        } else {
            PropertyKind::Sometimes
        }
    }

    fn property_name(&self, p: usize) -> (name: String) {
        let name = if p == 0 {
            "within limit".to_string()
        } else if p == 1 {
            "below limit".to_string()
        } else if p == 2 {
            "reaches limit".to_string()
        } else {
            "beyond limit".to_string()
        };
        proof {
            if p == 0 {
                vstd::string::to_string_from_display_ensures_for_str("within limit", name);
            } else if p == 1 {
                vstd::string::to_string_from_display_ensures_for_str("below limit", name);
            } else if p == 2 {
                vstd::string::to_string_from_display_ensures_for_str("reaches limit", name);
            } else {
                vstd::string::to_string_from_display_ensures_for_str("beyond limit", name);
            }
        }
        name
    }

    fn eval_property(&self, p: usize, state: &u8) -> (r: bool) {
        if p == 0 {
            *state <= self.limit
        } else if p == 1 {
            *state < self.limit
        } else if p == 2 {
            *state == self.limit
        } else {
            *state > self.limit
        }
    }

    fn state_eq(&self, a: &u8, b: &u8) -> (r: bool) {
        *a == *b
    }

    fn clone_state(&self, s: &u8) -> (r: u8) {
        *s
    }

    fn clone_action(&self, a: &CounterAction) -> (r: CounterAction) {
        *a
    }
}

} // verus!
