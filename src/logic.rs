//! Black-box gates the solver understands itself: RANGE, AND and XOR.
use vstd::prelude::*;
use vstd::arithmetic::power2::pow2;
use crate::circuit::{GadgetCall, PartialWitness, values};
use crate::field::{and_nat, bit_len, modulus, xor_nat};
use crate::pwg::GateResolution;
use crate::store::assign_value;

verus! {

/// Two inputs of one width and one output.
pub open spec fn logic_shape(gc: GadgetCall) -> bool {
    gc.inputs@.len() == 2 && gc.outputs@.len() == 1 && gc.inputs@[0].num_bits
        == gc.inputs@[1].num_bits
}

/// The value a well-shaped AND or XOR gate owes its output, when both inputs are known.
pub open spec fn logic_output(gc: GadgetCall, m: Map<u32, nat>, is_xor: bool) -> nat {
    let x = m[gc.inputs@[0].witness.0] % pow2(gc.inputs@[0].num_bits as nat);
    let y = m[gc.inputs@[1].witness.0] % pow2(gc.inputs@[0].num_bits as nat);
    if is_xor {
        xor_nat(x, y) % modulus()
    } else {
        and_nat(x, y) % modulus()
    }
}

/// The outcome of a well-shaped AND or XOR gate on the assignment `m`, and
/// the assignment after it.
pub open spec fn logic_step(
    gc: GadgetCall,
    m: Map<u32, nat>,
    is_xor: bool,
    r: GateResolution,
    m2: Map<u32, nat>,
) -> bool {
    let out = gc.outputs@[0].0;
    let v = logic_output(gc, m, is_xor);
    if !(m.contains_key(gc.inputs@[0].witness.0) && m.contains_key(gc.inputs@[1].witness.0)) {
        r is Skip && m2 == m
    } else if m.contains_key(out) && m[out] != v {
        r is UnsatisfiedConstrain && m2 == m
    } else {
        r is Resolved && m2 == m.insert(out, v)
    }
}

/// The outcome of a RANGE gate with one input on the assignment `m`.
pub open spec fn range_outcome(gc: GadgetCall, m: Map<u32, nat>, r: GateResolution) -> bool {
    let x = gc.inputs@[0].witness.0;
    if !m.contains_key(x) {
        r is Skip
    } else if bit_len(m[x]) <= gc.inputs@[0].num_bits {
        r is Resolved
    } else {
        r is UnsatisfiedConstrain
    }
}

pub struct LogicSolver;

impl LogicSolver {
    /// Writes the bitwise AND of the two inputs, cut to the declared width.
    pub fn solve_and_gate(w: &mut PartialWitness, gc: &GadgetCall) -> (r: GateResolution)
        ensures
            !logic_shape(*gc) ==> r is UnknownError && final(w)@ == old(w)@,
            logic_shape(*gc) ==> logic_step(*gc, values(old(w)@), false, r, values(final(w)@)),
    {
        LogicSolver::solve_logic_gate(w, gc, false)
    }

    /// Writes the bitwise XOR of the two inputs, cut to the declared width.
    pub fn solve_xor_gate(w: &mut PartialWitness, gc: &GadgetCall) -> (r: GateResolution)
        ensures
            !logic_shape(*gc) ==> r is UnknownError && final(w)@ == old(w)@,
            logic_shape(*gc) ==> logic_step(*gc, values(old(w)@), true, r, values(final(w)@)),
    {
        LogicSolver::solve_logic_gate(w, gc, true)
    }

    fn solve_logic_gate(w: &mut PartialWitness, gc: &GadgetCall, is_xor: bool) -> (r: GateResolution)
        ensures
            !logic_shape(*gc) ==> r is UnknownError && final(w)@ == old(w)@,
            logic_shape(*gc) ==> logic_step(*gc, values(old(w)@), is_xor, r, values(final(w)@)),
    {
        if gc.inputs.len() != 2 || gc.outputs.len() != 1
            || gc.inputs[0].num_bits != gc.inputs[1].num_bits {
            return GateResolution::UnknownError("logic gate needs two inputs of one width and one output".to_string());
        }
        let a = gc.inputs[0].witness.0;
        let b = gc.inputs[1].witness.0;
        let num_bits = gc.inputs[0].num_bits;
        let fa = match w.get(&a) {
            Some(f) => *f,
            None => return GateResolution::Skip,
        };
        let fb = match w.get(&b) {
            Some(f) => *f,
            None => return GateResolution::Skip,
        };
        proof {
            use_type_invariant(&fa);
            use_type_invariant(&fb);
            vstd::arithmetic::div_mod::lemma_small_mod(fa.value(), modulus());
            vstd::arithmetic::div_mod::lemma_small_mod(fb.value(), modulus());
        }
        let v = if is_xor {
            fa.xor(&fb, num_bits)
        } else {
            fa.and(&fb, num_bits)
        };
        if assign_value(w, gc.outputs[0].0, v) {
            GateResolution::Resolved
        } else {
            GateResolution::UnsatisfiedConstrain
        }
    }

    /// Checks that the single input fits in its declared number of bits.
    pub fn solve_range_gate(w: &PartialWitness, gc: &GadgetCall) -> (r: GateResolution)
        ensures
            gc.inputs@.len() != 1 ==> r is UnknownError,
            gc.inputs@.len() == 1 ==> range_outcome(*gc, values(w@), r),
    {
        if gc.inputs.len() != 1 {
            return GateResolution::UnknownError("defined input size does not equal given input size".to_string());
        }
        let input = gc.inputs[0];
        match w.get(&input.witness.0) {
            Some(v) => {
                proof {
                    use_type_invariant(v);
                    vstd::arithmetic::div_mod::lemma_small_mod(v.value(), modulus());
                }
                if v.num_bits() > input.num_bits {
                    GateResolution::UnsatisfiedConstrain
                } else {
                    GateResolution::Resolved
                }
            },
            None => GateResolution::Skip,
        }
    }
}

} // verus!
