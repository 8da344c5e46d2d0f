//! The capabilities a caller must supply: exact duplication of its value
//! types, a total order on its state type, and the script of instruction
//! steps that every process of a lineage executes.

use vstd::prelude::*;

verus! {

/// A value that can be duplicated exactly.
///
/// Forking copies the state and the carried hint of a process, and the copy
/// must be indistinguishable from the original, so a plain `Clone` (of which
/// nothing is known here) is not enough.
pub trait Dup: Sized {
    /// Returns a copy that equals the original.
    fn dup(&self) -> (copy: Self)
        ensures
            copy == *self,
    ;
}

/// A total order on the state type, used by pruning and by best-of queries.
pub trait Order: Sized {
    /// The ordering relation: `a.le(b)` means `a` ranks at or below `b`.
    spec fn le(self, other: Self) -> bool;

    /// The relation holds one way or the other between any two values.
    proof fn le_total(a: Self, b: Self)
        ensures
            Self::le(a, b) || Self::le(b, a),
    ;

    /// The relation is transitive.
    proof fn le_trans(a: Self, b: Self, c: Self)
        requires
            Self::le(a, b),
            Self::le(b, c),
        ensures
            Self::le(a, c),
    ;

    /// Executable comparison, faithful to the specification relation.
    fn leq(&self, other: &Self) -> (r: bool)
        ensures
            r == self.le(*other),
    ;
}

/// An ordered, immutable sequence of instruction steps.
///
/// A step takes the process state and the hint carried from the previous
/// step, mutates the state in place, and returns the hints that decide
/// branching: none (nothing carried forward), one (carried to the next
/// step), or several (the first is carried, each further one forks a
/// sibling process).
///
/// The whole behaviour is pinned by the two specification functions, so a
/// run of the engine is a mathematical function of the initial states.
pub trait Script<C, H>: Sized {
    /// How many steps the script has.
    spec fn steps(self) -> nat;

    /// What step `i` does: the new state and the emitted hints, as a
    /// function of the old state and the carried hint.
    spec fn step_spec(self, i: int, state: C, hint: Option<H>) -> (C, Seq<H>);

    /// The step count fits the machine, so cursors can be machine integers.
    proof fn steps_fit(self)
        ensures
            self.steps() <= usize::MAX,
    ;

    /// Executable step count.
    fn step_count(&self) -> (n: usize)
        ensures
            n == (*self).steps(),
    ;

    /// Runs step `i`, mutating `state` in place and returning the emitted
    /// hints, exactly as `step_spec` says.
    fn run_step(&self, i: usize, state: &mut C, hint: Option<H>) -> (hints: Vec<H>)
        requires
            i < (*self).steps(),
        ensures
            *final(state) == (*self).step_spec(i as int, *old(state), hint).0,
            hints@ == (*self).step_spec(i as int, *old(state), hint).1,
    ;
}

} // verus!
