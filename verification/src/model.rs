//! The capability contract a system description must satisfy.

use vstd::prelude::*;

verus! {

/// Whether a property must hold on every reachable state (`Always`) or on at
/// least one reachable state (`Sometimes`).
#[derive(Clone, Copy, Debug, PartialEq, Eq, Structural)]
pub enum PropertyKind {
    Always,
    Sometimes,
}

/// A system description: initial states, an action generator, a transition
/// function, and a list of named properties.
///
/// The `spec` functions give the mathematical meaning of the description;
/// each executable method is proved to agree with them, so the engine's
/// contracts can speak about reachability in the described system.  All
/// methods are pure: two calls on equal arguments return equal results.
pub trait Model: Sized {
    /// States are opaque to the engine; two states are the same node of the
    /// state space exactly when they are equal values.
    type State;

    /// One nondeterministic choice available from a state.
    type Action;

    /// The initial states, in the order `init_states` returns them.
    spec fn init_seq(&self) -> Seq<Self::State>;

    /// The actions generated from state `s`, in the order `actions` appends
    /// them.
    spec fn action_seq(&self, s: Self::State) -> Seq<Self::Action>;

    /// The destination of action `a` taken in state `s`, or `None` when the
    /// action is inapplicable in `s`.
    spec fn next_spec(&self, s: Self::State, a: Self::Action) -> Option<Self::State>;

    /// How many properties the description registers.
    spec fn prop_count(&self) -> nat;

    /// The kind of property `p`.
    spec fn prop_kind(&self, p: int) -> PropertyKind;

    /// Whether property `p` holds of state `s`.
    spec fn prop_holds(&self, p: int, s: Self::State) -> bool;

    /// The name of property `p`.
    spec fn prop_name(&self, p: int) -> Seq<char>;

    /// The finite list of initial states; must be non-empty for anything to
    /// be reachable, though the engine does not require that.
    fn init_states(&self) -> (r: Vec<Self::State>)
        ensures
            r@ == self.init_seq(),
    ;

    /// Appends every action available from `state` to `acts`.  May append
    /// nothing (a dead end).
    fn actions(&self, state: &Self::State, acts: &mut Vec<Self::Action>)
        ensures
            final(acts)@ == old(acts)@ + self.action_seq(*state),
    ;

    /// Applies `action` in `state`; `None` means the action is inapplicable
    /// and the transition is discarded by the engine.
    fn next_state(&self, state: &Self::State, action: Self::Action) -> (r: Option<Self::State>)
        ensures
            r == self.next_spec(*state, action),
    ;

    /// The number of registered properties.
    fn property_count(&self) -> (n: usize)
        ensures
            n == self.prop_count(),
    ;

    /// The kind of property `p`.
    fn property_kind(&self, p: usize) -> (k: PropertyKind)
        requires
            p < self.prop_count(),
        ensures
            k == self.prop_kind(p as int),
    ;

    /// The name of property `p`, for reporting.
    fn property_name(&self, p: usize) -> (name: String)
        requires
            p < self.prop_count(),
        ensures
            name@ == self.prop_name(p as int),
    ;

    /// Evaluates the predicate of property `p` on `state`.
    fn eval_property(&self, p: usize, state: &Self::State) -> (r: bool)
        requires
            p < self.prop_count(),
        ensures
            r == self.prop_holds(p as int, *state),
    ;

    /// Structural equality of states, used by the store to deduplicate.
    fn state_eq(&self, a: &Self::State, b: &Self::State) -> (r: bool)
        ensures
            r == (a == b),
    ;

    /// An exact copy of a state.
    fn clone_state(&self, s: &Self::State) -> (r: Self::State)
        ensures
            r == *s,
    ;

    /// An exact copy of an action.
    fn clone_action(&self, a: &Self::Action) -> (r: Self::Action)
        ensures
            r == *a,
    ;
}

} // verus!
