//! Arithmetic gates: an expression that must evaluate to zero.
use vstd::prelude::*;
use crate::circuit::{Expression, PartialWitness, eval_expr, get_value, values};
use crate::pwg::GateResolution;

verus! {

pub struct ArithmeticSolver;

impl ArithmeticSolver {
    /// Checks an arithmetic gate once every witness it reads is known; until then it
    /// is skipped.
    pub fn solve(w: &PartialWitness, e: &Expression) -> (r: GateResolution)
        ensures
            match eval_expr(*e, values(w@)) {
                None => r is Skip,
                Some(v) => if v == 0 {
                    r is Resolved
                } else {
                    r is UnsatisfiedConstrain
                },
            },
    {
        match get_value(e, w) {
            None => GateResolution::Skip,
            Some(v) => {
                proof {
                    use_type_invariant(&v);
                    vstd::arithmetic::div_mod::lemma_small_mod(v.value(), crate::field::modulus());
                }
                if v.is_zero() {
                    GateResolution::Resolved
                } else {
                    GateResolution::UnsatisfiedConstrain
                }
            },
        }
    }
}

} // verus!
