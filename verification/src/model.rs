//! A small concrete domain: an integer-valued state and a two-step
//! branching script over it, ready to drive the engine.
//!
//! The script's first step adds one to the state and emits the two hints
//! `0` and `1`, so every process splits in two; the second step adds the
//! carried hint to the state and emits nothing.

use vstd::prelude::*;
use crate::script::{Dup, Order, Script};

verus! {

impl Dup for i32 {
    fn dup(&self) -> (copy: i32)
        ensures
            copy == *self,
    {
        *self
    }
}

/// An integer-valued state.
pub struct Model(pub i32);

impl Model {
    pub fn new(input: i32) -> (m: Model)
        ensures
            m.0 == input,
    {
        Model(input)
    }

    /// The squared state value.
    pub fn square(&self) -> (r: i32)
        requires
            -46340 <= self.0 <= 46340,
        ensures
            r == self.0 * self.0,
    {
        proof {
            assert(0 <= self.0 * self.0 <= 46340 * 46340) by (nonlinear_arith)
                requires
                    -46340 <= self.0 <= 46340,
            ;
        }
        self.0 * self.0
    }
}

impl Dup for Model {
    fn dup(&self) -> (copy: Model)
        ensures
            copy == *self,
    {
        Model(self.0)
    }
}

impl Order for Model {
    open spec fn le(self, other: Self) -> bool {
        self.0 <= other.0
    }

    proof fn le_total(a: Self, b: Self) {
    }

    proof fn le_trans(a: Self, b: Self, c: Self) {
    }

    fn leq(&self, other: &Self) -> (r: bool) {
        self.0 <= other.0
    }
}

/// The two-step branching script: add one and split on hints `0` and `1`,
/// then add the carried hint.  Additions wrap around on overflow.
pub struct BranchScript;

impl Script<Model, i32> for BranchScript {
    open spec fn steps(self) -> nat {
        2
    }

    open spec fn step_spec(self, i: int, state: Model, hint: Option<i32>) -> (Model, Seq<i32>) {
        if i == 0 {
            (Model(vstd::wrapping::i32_specs::wrapping_add(state.0, 1)), seq![0i32, 1i32])
        } else {
            let h = match hint {
                Some(v) => v,
                None => 0i32,
            };
            (Model(vstd::wrapping::i32_specs::wrapping_add(state.0, h)), Seq::empty())
        }
    }

    proof fn steps_fit(self) {
    }

    fn step_count(&self) -> (n: usize) {
        2
    }

    fn run_step(&self, i: usize, state: &mut Model, hint: Option<i32>) -> (hints: Vec<i32>) {
        if i == 0 {
            state.0 = state.0.wrapping_add(1);
            let mut hints: Vec<i32> = Vec::new();
            hints.push(0);
            hints.push(1);
            proof {
                assert(hints@ =~= seq![0i32, 1i32]);
            }
            hints
        } else {
            let h: i32 = match hint {
                Some(v) => v,
                None => 0,
            };
            state.0 = state.0.wrapping_add(h);
            Vec::new()
        }
    }
}

} // verus!
