//! The interface a proving backend implements.
use vstd::prelude::*;
use crate::circuit::{Circuit, PartialWitness};
use crate::field::FieldElement;
use crate::language::Language;
use crate::pwg::PartialWitnessGenerator;

verus! {

/// A proving backend: contract emission, proofs, and the black-box calls
/// only it can solve.
pub trait Backend: SmartContract + ProofSystemCompiler + PartialWitnessGenerator {}

pub trait SmartContract {
    /// Takes a circuit and returns a verifier contract for it.
    fn eth_contract_from_cs(&self, circuit: Circuit) -> String;
}

pub trait ProofSystemCompiler {
    /// The language this proof system accepts directly.
    fn np_language(&self) -> Language;

    /// Creates a proof from the circuit and the witness values.
    fn prove_with_meta(&self, circuit: Circuit, witness_values: PartialWitness) -> Vec<u8>;

    /// Verifies a proof against the circuit and its public inputs.
    fn verify_from_cs(&self, proof: &[u8], public_input: Vec<FieldElement>, circuit: Circuit) -> bool;

    fn get_exact_circuit_size(&self, circuit: Circuit) -> u32;
}

} // verus!
