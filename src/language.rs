//! The constraint languages a backend can speak, and which gates each takes natively.
use vstd::prelude::*;
use crate::circuit::{Gate, Opcode};

verus! {

/// Supported NP-complete languages.
#[derive(Debug, Clone, Copy)]
pub enum Language {
    R1CS,
    PLONKCSat { width: usize },
}

/// A RANGE, AND or XOR black-box call.
pub open spec fn is_logic_or_range(gate: Gate) -> bool {
    match gate {
        Gate::GadgetCall(gc) => !(gc.name is Named),
        _ => false,
    }
}

/// What a backend's language says about black-box calls and gates.
pub trait CustomGate {
    fn supports(&self, opcode: &str) -> bool;

    fn supports_gate(&self, gate: &Gate) -> bool;
}

impl Language {
    /// Whether black-box calls by name are accepted at all: only the PLONK dialect takes them.
    pub fn supports_opcode(&self, _opcode: &str) -> (r: bool)
        ensures
            r == (*self is PLONKCSat),
    {
        match self {
            Language::R1CS => false,
            Language::PLONKCSat { .. } => true,
        }
    }

    /// Whether a gate needs handling of the backend's own: never under
    /// R1CS; under PLONK, every gate but RANGE, AND and XOR.
    pub fn gate_needs_custom_support(&self, gate: &Gate) -> (r: bool)
        ensures
            r == (*self is PLONKCSat && !is_logic_or_range(*gate)),
    {
        let is_supported_gate = match gate {
            Gate::GadgetCall(gc) => match &gc.name {
                Opcode::Range | Opcode::And | Opcode::Xor => true,
                Opcode::Named(_) => false,
            },
            Gate::Arithmetic(_) | Gate::Directive(_) => false,
        };
        let is_r1cs = match self {
            Language::R1CS => true,
            Language::PLONKCSat { .. } => false,
        };
        !(is_supported_gate || is_r1cs)
    }
}

impl CustomGate for Language {
    fn supports(&self, opcode: &str) -> (r: bool)
        ensures
            r == (*self is PLONKCSat),
    {
        self.supports_opcode(opcode)
    }

    fn supports_gate(&self, gate: &Gate) -> (r: bool)
        ensures
            r == (*self is PLONKCSat && !is_logic_or_range(*gate)),
    {
        self.gate_needs_custom_support(gate)
    }
}

} // verus!
