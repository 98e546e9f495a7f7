use acvm::arithmetic::ArithmeticSolver;
use acvm::directives::solve_directive;
use acvm::logic::LogicSolver;
use acvm::pwg::solve;
use acvm::{
    CustomGate, Directive, Expression, FieldElement, GadgetCall, GadgetInput, GadgetSolver, Gate,
    GateResolution, Language, Opcode, PartialWitness, PartialWitnessGenerator, Witness,
};

/// The field order, big-endian.
const MODULUS: [u8; 32] = [
    0x30, 0x64, 0x4e, 0x72, 0xe1, 0x31, 0xa0, 0x29, 0xb8, 0x50, 0x45, 0xb6, 0x81, 0x81, 0x58,
    0x5d, 0x28, 0x33, 0xe8, 0x48, 0x79, 0xb9, 0x70, 0x91, 0x43, 0xe1, 0xf5, 0x93, 0xf0, 0x00,
    0x00, 0x01,
];

struct NoBlackBox;

impl PartialWitnessGenerator for NoBlackBox {}

impl GadgetSolver for NoBlackBox {
    fn solve_gadget_call(_w: &mut PartialWitness, gc: &GadgetCall) -> Result<(), Opcode> {
        Err(gc.name.clone())
    }
}

struct Doubler;

impl PartialWitnessGenerator for Doubler {}

impl GadgetSolver for Doubler {
    fn solve_gadget_call(w: &mut PartialWitness, gc: &GadgetCall) -> Result<(), Opcode> {
        let x = *w.get(&gc.inputs[0].witness.0).unwrap();
        w.insert(gc.outputs[0].0, x.add(x));
        Ok(())
    }
}

fn fe(n: u128) -> FieldElement {
    FieldElement::from_u128(n)
}

/// The field element `-n`.
fn neg(n: u128) -> FieldElement {
    let mut bytes = MODULUS;
    let mut borrow: u128 = n;
    for i in (0..32).rev() {
        let cur = bytes[i] as u128;
        let sub = borrow % 256;
        borrow /= 256;
        if cur >= sub {
            bytes[i] = (cur - sub) as u8;
        } else {
            bytes[i] = (cur + 256 - sub) as u8;
            borrow += 1;
        }
    }
    FieldElement::from_be_bytes_reduce(&bytes)
}

fn same(a: &FieldElement, b: &FieldElement) -> bool {
    a.to_bytes() == b.to_bytes()
}

fn value_of(w: &PartialWitness, k: u32) -> Vec<u8> {
    w.get(&k).expect("witness assigned").to_bytes()
}

fn bytes_of(n: u128) -> Vec<u8> {
    fe(n).to_bytes()
}

fn linear(q_c: FieldElement, terms: Vec<(FieldElement, u32)>) -> Expression {
    Expression {
        mul_terms: Vec::new(),
        linear_combinations: terms.into_iter().map(|(c, w)| (c, Witness(w))).collect(),
        q_c,
    }
}

fn constant(n: u128) -> Expression {
    linear(fe(n), Vec::new())
}

fn witness_map(pairs: &[(u32, u128)]) -> PartialWitness {
    let mut w = PartialWitness::new();
    for (k, v) in pairs {
        w.insert(*k, fe(*v));
    }
    w
}

fn gadget(name: Opcode, inputs: &[(u32, u32)], outputs: &[u32]) -> GadgetCall {
    GadgetCall {
        name,
        inputs: inputs.iter().map(|(w, n)| GadgetInput { witness: Witness(*w), num_bits: *n }).collect(),
        outputs: outputs.iter().map(|w| Witness(*w)).collect(),
    }
}

#[test]
fn end_to_end_stalls_then_resolves_with_directive() {
    let sum_is_ten = Gate::Arithmetic(linear(neg(10), vec![(fe(1), 0), (fe(1), 1)]));
    let mut w = witness_map(&[(0, 3)]);
    let r = solve(&NoBlackBox, &mut w, vec![sum_is_ten.clone()]);
    match r {
        GateResolution::Stalled(left) => assert_eq!(left.len(), 1),
        other => panic!("expected a stall, got {:?}", other),
    }
    assert_eq!(w.len(), 1);

    // 7 = 0 * 8 + 7: the remainder lands in w1.
    let seven = Gate::Directive(Directive::Quotient {
        a: constant(7),
        b: constant(8),
        q: Witness(1),
        r: Witness(1),
        predicate: None,
    });
    let mut w = witness_map(&[(0, 3)]);
    let r = NoBlackBox.solve(&mut w, vec![seven, sum_is_ten]);
    assert!(matches!(r, GateResolution::Resolved));
    assert_eq!(w.len(), 2);
    assert_eq!(value_of(&w, 0), bytes_of(3));
    assert_eq!(value_of(&w, 1), bytes_of(7));
}

#[test]
fn satisfied_arithmetic_circuit_resolves_and_keeps_witness() {
    // 2 * w0 - w1 = 0 and w0 * w1 - 18 = 0 with w0 = 3, w1 = 6.
    let g1 = Gate::Arithmetic(linear(fe(0), vec![(fe(2), 0), (neg(1), 1)]));
    let g2 = Gate::Arithmetic(Expression {
        mul_terms: vec![(fe(1), Witness(0), Witness(1))],
        linear_combinations: Vec::new(),
        q_c: neg(18),
    });
    let mut w = witness_map(&[(0, 3), (1, 6)]);
    let r = solve(&NoBlackBox, &mut w, vec![g1, g2]);
    assert!(matches!(r, GateResolution::Resolved));
    assert_eq!(w.len(), 2);
    assert_eq!(value_of(&w, 0), bytes_of(3));
    assert_eq!(value_of(&w, 1), bytes_of(6));
}

#[test]
fn violated_arithmetic_gate_is_unsatisfied() {
    let g = Gate::Arithmetic(linear(neg(10), vec![(fe(1), 0), (fe(1), 1)]));
    let mut w = witness_map(&[(0, 3), (1, 8)]);
    assert!(matches!(solve(&NoBlackBox, &mut w, vec![g]), GateResolution::UnsatisfiedConstrain));
}

#[test]
fn arithmetic_solver_outcomes() {
    let e = linear(neg(5), vec![(fe(1), 0)]);
    assert!(matches!(ArithmeticSolver::solve(&witness_map(&[]), &e), GateResolution::Skip));
    assert!(matches!(ArithmeticSolver::solve(&witness_map(&[(0, 5)]), &e), GateResolution::Resolved));
    assert!(matches!(
        ArithmeticSolver::solve(&witness_map(&[(0, 4)]), &e),
        GateResolution::UnsatisfiedConstrain
    ));
}

#[test]
fn stalled_gate_is_reported() {
    let g = Gate::Arithmetic(linear(fe(0), vec![(fe(1), 0), (fe(1), 9)]));
    let mut w = witness_map(&[(0, 1)]);
    match solve(&NoBlackBox, &mut w, vec![g]) {
        GateResolution::Stalled(left) => {
            assert_eq!(left.len(), 1);
            assert!(matches!(left[0], Gate::Arithmetic(_)));
        }
        other => panic!("expected a stall, got {:?}", other),
    }
}

#[test]
fn empty_circuit_resolves() {
    let mut w = witness_map(&[(0, 1)]);
    assert!(matches!(solve(&NoBlackBox, &mut w, Vec::new()), GateResolution::Resolved));
    assert_eq!(w.len(), 1);
}

#[test]
fn gates_resolve_in_dependency_order() {
    // w2 = w1 + 1 needs w1, which the later directive produces.
    let g = Gate::Arithmetic(linear(fe(1), vec![(fe(1), 1), (neg(1), 2)]));
    let d = Gate::Directive(Directive::Truncate { a: Witness(0), b: Witness(1), c: Witness(3), bit_size: 2 });
    let mut w = witness_map(&[(0, 7), (2, 4)]);
    assert!(matches!(solve(&NoBlackBox, &mut w, vec![g, d]), GateResolution::Resolved));
    assert_eq!(value_of(&w, 1), bytes_of(3));
    assert_eq!(value_of(&w, 3), bytes_of(1));
}

#[test]
fn split_is_idempotent_and_detects_overwrite() {
    let d = Directive::Split { a: linear(fe(0), vec![(fe(1), 0)]), b: vec![Witness(1), Witness(2), Witness(3)], bit_size: 3 };
    let mut w = witness_map(&[(0, 5)]);
    assert!(matches!(solve_directive(&mut w, &d), GateResolution::Resolved));
    assert_eq!(value_of(&w, 1), bytes_of(1));
    assert_eq!(value_of(&w, 2), bytes_of(0));
    assert_eq!(value_of(&w, 3), bytes_of(1));
    let before: Vec<Vec<u8>> = (1..4).map(|k| value_of(&w, k)).collect();
    assert!(matches!(solve_directive(&mut w, &d), GateResolution::Resolved));
    let after: Vec<Vec<u8>> = (1..4).map(|k| value_of(&w, k)).collect();
    assert_eq!(before, after);
    w.insert(2, fe(1));
    assert!(matches!(
        NoBlackBox.solve(&mut w, vec![Gate::Directive(d.clone())]),
        GateResolution::UnsatisfiedConstrain
    ));
    assert_eq!(value_of(&w, 2), bytes_of(1));
}

#[test]
fn solve_runs_logic_gates() {
    let and = Gate::GadgetCall(gadget(Opcode::And, &[(0, 4), (1, 4)], &[2]));
    let xor = Gate::GadgetCall(gadget(Opcode::Xor, &[(0, 4), (1, 4)], &[3]));
    let range = Gate::GadgetCall(gadget(Opcode::Range, &[(2, 4)], &[]));
    let mut w = witness_map(&[(0, 0x1c), (1, 0x1a)]);
    assert!(matches!(NoBlackBox.solve(&mut w, vec![range, and, xor]), GateResolution::Resolved));
    assert_eq!(w.len(), 4);
    assert_eq!(value_of(&w, 2), bytes_of(8));
    assert_eq!(value_of(&w, 3), bytes_of(6));
    let narrow = Gate::GadgetCall(gadget(Opcode::Range, &[(2, 3)], &[]));
    let mut w = witness_map(&[(2, 8)]);
    assert!(matches!(NoBlackBox.solve(&mut w, vec![narrow]), GateResolution::UnsatisfiedConstrain));
    assert_eq!(w.len(), 1);
}

#[test]
fn split_with_too_few_outputs_is_an_error() {
    let d = Directive::Split { a: constant(5), b: vec![Witness(1)], bit_size: 3 };
    let mut w = witness_map(&[]);
    assert!(matches!(solve_directive(&mut w, &d), GateResolution::UnknownError(_)));
}

#[test]
fn to_bytes_is_idempotent_and_detects_overwrite() {
    let d = Directive::ToBytes { a: linear(fe(0), vec![(fe(1), 0)]), b: vec![Witness(1), Witness(2)], byte_size: 2 };
    let mut w = witness_map(&[(0, 0x1234)]);
    assert!(matches!(solve_directive(&mut w, &d), GateResolution::Resolved));
    assert_eq!(value_of(&w, 1), bytes_of(0x34));
    assert_eq!(value_of(&w, 2), bytes_of(0x12));
    assert!(matches!(solve_directive(&mut w, &d), GateResolution::Resolved));
    assert_eq!(value_of(&w, 1), bytes_of(0x34));
    w.insert(1, fe(0x35));
    assert!(matches!(solve_directive(&mut w, &d), GateResolution::UnsatisfiedConstrain));
}

#[test]
fn to_bytes_beyond_field_width_is_an_error() {
    let outs: Vec<Witness> = (1..40).map(Witness).collect();
    let d = Directive::ToBytes { a: constant(1), b: outs, byte_size: 33 };
    let mut w = witness_map(&[]);
    assert!(matches!(solve_directive(&mut w, &d), GateResolution::UnknownError(_)));
}

#[test]
fn truncate_round_trip() {
    let d = Directive::Truncate { a: Witness(0), b: Witness(1), c: Witness(2), bit_size: 4 };
    let mut w = witness_map(&[(0, 1000)]);
    assert!(matches!(solve_directive(&mut w, &d), GateResolution::Resolved));
    assert_eq!(value_of(&w, 1), bytes_of(8));
    assert_eq!(value_of(&w, 2), bytes_of(62));
    let mut w = witness_map(&[]);
    assert!(matches!(solve_directive(&mut w, &d), GateResolution::Skip));
    assert!(w.is_empty());
}

#[test]
fn and_xor_gates_cut_to_width() {
    let and = gadget(Opcode::And, &[(0, 4), (1, 4)], &[2]);
    let xor = gadget(Opcode::Xor, &[(0, 4), (1, 4)], &[3]);
    let mut w = witness_map(&[(0, 12), (1, 10)]);
    assert!(matches!(LogicSolver::solve_and_gate(&mut w, &and), GateResolution::Resolved));
    assert!(matches!(LogicSolver::solve_xor_gate(&mut w, &xor), GateResolution::Resolved));
    assert_eq!(value_of(&w, 2), bytes_of(8));
    assert_eq!(value_of(&w, 3), bytes_of(6));

    let mut w = witness_map(&[(0, 0x1f), (1, 0x13)]);
    assert!(matches!(LogicSolver::solve_and_gate(&mut w, &and), GateResolution::Resolved));
    assert!(matches!(LogicSolver::solve_xor_gate(&mut w, &xor), GateResolution::Resolved));
    assert_eq!(value_of(&w, 2), bytes_of(0x3));
    assert_eq!(value_of(&w, 3), bytes_of(0xc));
}

#[test]
fn logic_gate_waits_and_checks_its_output() {
    let and = gadget(Opcode::And, &[(0, 8), (1, 8)], &[2]);
    let mut w = witness_map(&[(0, 12)]);
    assert!(matches!(LogicSolver::solve_and_gate(&mut w, &and), GateResolution::Skip));
    let mut w = witness_map(&[(0, 12), (1, 10), (2, 9)]);
    assert!(matches!(LogicSolver::solve_and_gate(&mut w, &and), GateResolution::UnsatisfiedConstrain));
    let bad = gadget(Opcode::And, &[(0, 8)], &[2]);
    assert!(matches!(LogicSolver::solve_and_gate(&mut w, &bad), GateResolution::UnknownError(_)));
}

#[test]
fn range_gate_checks_bit_length() {
    let w = witness_map(&[(0, 255)]);
    assert!(matches!(LogicSolver::solve_range_gate(&w, &gadget(Opcode::Range, &[(0, 8)], &[])), GateResolution::Resolved));
    assert!(matches!(
        LogicSolver::solve_range_gate(&w, &gadget(Opcode::Range, &[(0, 7)], &[])),
        GateResolution::UnsatisfiedConstrain
    ));
    assert!(matches!(
        LogicSolver::solve_range_gate(&w, &gadget(Opcode::Range, &[(1, 7)], &[])),
        GateResolution::Skip
    ));
    assert!(matches!(
        LogicSolver::solve_range_gate(&w, &gadget(Opcode::Range, &[(0, 7), (0, 7)], &[])),
        GateResolution::UnknownError(_)
    ));
    let mut w2 = witness_map(&[(0, 256)]);
    let r = solve(&NoBlackBox, &mut w2, vec![Gate::GadgetCall(gadget(Opcode::Range, &[(0, 8)], &[]))]);
    assert!(matches!(r, GateResolution::UnsatisfiedConstrain));
}

#[test]
fn oddrange_splits_top_bit() {
    let d = Directive::Oddrange { a: Witness(0), b: Witness(1), r: Witness(2), bit_size: 4 };
    let mut w = witness_map(&[(0, 13)]);
    assert!(matches!(solve_directive(&mut w, &d), GateResolution::Resolved));
    assert_eq!(value_of(&w, 1), bytes_of(1));
    assert_eq!(value_of(&w, 2), bytes_of(5));
    let mut w = witness_map(&[(0, 6)]);
    assert!(matches!(solve_directive(&mut w, &d), GateResolution::Resolved));
    assert_eq!(value_of(&w, 1), bytes_of(0));
    assert_eq!(value_of(&w, 2), bytes_of(6));
    let mut w = witness_map(&[(0, 16)]);
    assert!(matches!(solve_directive(&mut w, &d), GateResolution::UnsatisfiedConstrain));
    let zero = Directive::Oddrange { a: Witness(0), b: Witness(1), r: Witness(2), bit_size: 0 };
    assert!(matches!(solve_directive(&mut w, &zero), GateResolution::UnknownError(_)));
}

#[test]
fn invert_gives_multiplicative_inverse() {
    let d = Directive::Invert { x: Witness(0), result: Witness(1) };
    let mut w = witness_map(&[(0, 2)]);
    assert!(matches!(solve_directive(&mut w, &d), GateResolution::Resolved));
    let inv = *w.get(&1).unwrap();
    assert!(same(&inv.mul(fe(2)), &fe(1)));
    let mut w = witness_map(&[(0, 0)]);
    assert!(matches!(solve_directive(&mut w, &d), GateResolution::Resolved));
    assert_eq!(value_of(&w, 1), bytes_of(0));
}

#[test]
fn quotient_divides_and_respects_predicate() {
    let d = Directive::Quotient { a: constant(17), b: constant(5), q: Witness(0), r: Witness(1), predicate: None };
    let mut w = witness_map(&[]);
    assert!(matches!(solve_directive(&mut w, &d), GateResolution::Resolved));
    assert_eq!(value_of(&w, 0), bytes_of(3));
    assert_eq!(value_of(&w, 1), bytes_of(2));

    let off = Directive::Quotient { a: constant(17), b: constant(0), q: Witness(0), r: Witness(1), predicate: Some(constant(0)) };
    let mut w = witness_map(&[]);
    assert!(matches!(solve_directive(&mut w, &off), GateResolution::Resolved));
    assert_eq!(value_of(&w, 0), bytes_of(0));
    assert_eq!(value_of(&w, 1), bytes_of(0));

    let by_zero = Directive::Quotient { a: constant(17), b: constant(0), q: Witness(0), r: Witness(1), predicate: None };
    let mut w = witness_map(&[]);
    assert!(matches!(solve_directive(&mut w, &by_zero), GateResolution::UnknownError(_)));
    assert!(w.is_empty());

    let waiting = Directive::Quotient { a: linear(fe(0), vec![(fe(1), 5)]), b: constant(2), q: Witness(0), r: Witness(1), predicate: None };
    let mut w = witness_map(&[]);
    assert!(matches!(solve_directive(&mut w, &waiting), GateResolution::Skip));
}

#[test]
fn backend_gadget_calls() {
    let call = Gate::GadgetCall(gadget(Opcode::Named("double".to_string()), &[(0, 8)], &[1]));
    let mut w = witness_map(&[(0, 21)]);
    assert!(matches!(solve(&Doubler, &mut w, vec![call.clone()]), GateResolution::Resolved));
    assert_eq!(value_of(&w, 1), bytes_of(42));
    let mut w = witness_map(&[(0, 21)]);
    match solve(&NoBlackBox, &mut w, vec![call.clone()]) {
        GateResolution::UnsupportedOpcode(Opcode::Named(name)) => assert_eq!(name, "double"),
        other => panic!("expected an unsupported opcode, got {:?}", other),
    }
    let mut w = witness_map(&[]);
    assert!(matches!(solve(&NoBlackBox, &mut w, vec![call]), GateResolution::Stalled(_)));
}

#[test]
fn get_value_evaluates_expressions() {
    let e = Expression {
        mul_terms: vec![(fe(3), Witness(0), Witness(1))],
        linear_combinations: vec![(fe(2), Witness(0))],
        q_c: fe(5),
    };
    let w = witness_map(&[(0, 4), (1, 7)]);
    let v = NoBlackBox::get_value(&e, &w).unwrap();
    assert_eq!(v.to_bytes(), bytes_of(5 + 8 + 84));
    assert!(NoBlackBox::get_value(&e, &witness_map(&[(0, 4)])).is_none());
    // Sums wrap around the field order.
    let wrap = linear(neg(1), vec![(fe(1), 0)]);
    assert_eq!(NoBlackBox::get_value(&wrap, &witness_map(&[(0, 3)])).unwrap().to_bytes(), bytes_of(2));
}

#[test]
fn field_operations() {
    assert!(same(&fe(6).add(fe(7)), &fe(13)));
    assert!(same(&fe(6).mul(fe(7)), &fe(42)));
    assert!(same(&neg(1).add(fe(1)), &fe(0)));
    assert!(fe(0).is_zero());
    assert!(!fe(3).is_zero());
    assert_eq!(fe(255).num_bits(), 8);
    assert_eq!(fe(256).num_bits(), 9);
    assert_eq!(FieldElement::from_be_bytes_reduce(&MODULUS).to_bytes(), bytes_of(0));
}

#[test]
fn language_support() {
    let plonk = Language::PLONKCSat { width: 3 };
    let r1cs = Language::R1CS;
    assert!(plonk.supports("sha256"));
    assert!(!r1cs.supports("sha256"));
    let range = Gate::GadgetCall(gadget(Opcode::Range, &[(0, 8)], &[]));
    let other = Gate::GadgetCall(gadget(Opcode::Named("sha256".to_string()), &[(0, 8)], &[1]));
    let arith = Gate::Arithmetic(constant(0));
    assert!(!plonk.supports_gate(&range));
    assert!(plonk.supports_gate(&other));
    assert!(plonk.supports_gate(&arith));
    assert!(!r1cs.supports_gate(&range));
    assert!(!r1cs.supports_gate(&other));
    assert!(!r1cs.supports_gate(&arith));
}
