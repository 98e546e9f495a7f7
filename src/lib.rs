//! Partial witness generation for arithmetic circuits over a prime field:
//! given gates and some witness values, compute the rest.
pub mod field;
pub mod circuit;
pub mod store;
pub mod pwg;
pub mod arithmetic;
pub mod logic;
pub mod directives;
pub mod language;
pub mod backend;
pub mod laws;

pub use backend::{Backend, ProofSystemCompiler, SmartContract};
pub use circuit::{Circuit, Directive, Expression, GadgetCall, GadgetInput, Gate, Opcode, PartialWitness, Witness};
pub use field::FieldElement;
pub use language::{CustomGate, Language};
pub use pwg::{GadgetSolver, GateResolution, PartialWitnessGenerator};
