use vstd::prelude::*;

verus! {

/// A Kripke structure is a transition system in which transitions have no label
/// and states are labelled over a Domain Of Atomic Proposition (DOAP).
///
/// An Atomic Proposition (AP) may or may not hold on a given state depending on
/// the value in the DOAP with which it is labelled.
///
/// We use a basic adjacency list representation.
pub struct KripkeStructure<DOAP> {
    pub states: Vec<KripkeState<DOAP>>,
}

impl<DOAP> KripkeStructure<DOAP> {
    pub fn new(states: Vec<KripkeState<DOAP>>) -> (r: Self)
        ensures
            r.states == states,
    {
        Self { states }
    }

    /// The number of states.
    pub open spec fn n(&self) -> nat {
        self.states@.len()
    }

    /// Whether the structure has a transition from state `i` to state `j`.
    pub open spec fn has_transition(&self, i: int, j: int) -> bool {
        &&& 0 <= i < self.n()
        &&& 0 <= j < self.n()
        &&& exists|e: int|
            0 <= e < self.states@[i].outgoing_transitions_targets@.len()
                && (#[trigger] self.states@[i].outgoing_transitions_targets@[e]) as int == j
    }

    /// The transition relation, as a set of (origin, target) pairs of state indices.
    pub open spec fn trans_set(&self) -> Set<(int, int)> {
        Set::new(|p: (int, int)| self.has_transition(p.0, p.1))
    }

    /// Well-formedness: at least one state, few enough states for the symbolic
    /// encoding (two Boolean variables per state), and every transition target
    /// in range.
    pub open spec fn wf(&self) -> bool {
        &&& 1 <= self.n()
        &&& 2 * self.n() < 65534
        &&& forall|i: int, e: int|
            0 <= i < self.n() && 0 <= e < self.states@[i].outgoing_transitions_targets@.len()
                ==> ((#[trigger] self.states@[i].outgoing_transitions_targets@[e]) as int)
                < self.n()
    }
}

/// A state of a [KripkeStructure] is characterised by:
/// - a value in the domain in which Atomic Propositions are evaluated
/// - and its possible next states (following an adjacency list representation
///   of the [KripkeStructure])
pub struct KripkeState<DOAP> {
    pub value_in_domain: DOAP,
    pub outgoing_transitions_targets: Vec<usize>,
}

impl<DOAP> KripkeState<DOAP> {
    pub fn new(value_in_domain: DOAP, outgoing_transitions_targets: Vec<usize>) -> (r: Self)
        ensures
            r.value_in_domain == value_in_domain,
            r.outgoing_transitions_targets == outgoing_transitions_targets,
    {
        Self { value_in_domain, outgoing_transitions_targets }
    }
}

/// An atomic proposition over a domain of state labels: a pure, deterministic
/// decision procedure, together with its mathematical meaning.
pub trait AtomicProposition<DOAP>: Sized {
    /// The meaning of the proposition on a state's domain value.
    spec fn satisfied_on_spec(&self, state_domain: &DOAP) -> bool;

    /// Decides whether the proposition holds on a state's domain value.
    fn is_satisfied_on_state_domain(&self, state_domain: &DOAP) -> (r: bool)
        ensures
            r == self.satisfied_on_spec(state_domain),
    ;
}

/// Decidable equality on atomic-proposition values, used to key the
/// memoisation table by subformula identity.
pub trait ValueEq: Sized {
    /// Decides whether two values are equal.
    fn value_eq(&self, other: &Self) -> (r: bool)
        ensures
            r == (self == other),
    ;
}

/// A ready-made atom domain: a state is labelled with a list of atom
/// identifiers, and atom `a` holds on a state iff `a` is among its labels.
impl AtomicProposition<Vec<u64>> for u64 {
    open spec fn satisfied_on_spec(&self, state_domain: &Vec<u64>) -> bool {
        state_domain@.contains(*self)
    }

    fn is_satisfied_on_state_domain(&self, state_domain: &Vec<u64>) -> (r: bool)
        ensures
            r == self.satisfied_on_spec(state_domain),
    {
        let mut e: usize = 0;
        while e < state_domain.len()
            invariant
                0 <= e <= state_domain@.len(),
                forall|q: int| 0 <= q < e ==> state_domain@[q] != *self,
            decreases state_domain@.len() - e,
        {
            if state_domain[e] == *self {
                return true;
            }
            e += 1;
        }
        false
    }
}

impl ValueEq for u64 {
    fn value_eq(&self, other: &Self) -> (r: bool)
        ensures
            r == (self == other),
    {
        *self == *other
    }
}

} // verus!
