//! The circuit model: witnesses, expressions, gates and directives, and the
//! value of an expression under a partial assignment.
use vstd::prelude::*;
use std::collections::BTreeMap;
use crate::field::{FieldElement, modulus};

verus! {

broadcast use vstd::std_specs::btree::group_btree_axioms;

/// One variable slot of a circuit.
#[derive(Clone, Copy, Debug, PartialEq, Eq)]
pub struct Witness(pub u32);

impl Witness {
    pub fn new(witness_index: u32) -> (r: Witness)
        ensures
            r.0 == witness_index,
    {
        Witness(witness_index)
    }

    pub fn witness_index(&self) -> (r: u32)
        ensures
            r == self.0,
    {
        self.0
    }
}

/// The values known so far, keyed by witness index.
pub type PartialWitness = BTreeMap<u32, FieldElement>;

/// The values of an assignment, as integers.
pub open spec fn values(m: Map<u32, FieldElement>) -> Map<u32, nat> {
    m.map_values(|f: FieldElement| f.value())
}

/// `q_c + sum of linear terms + sum of product terms`.
#[derive(Clone, Debug)]
pub struct Expression {
    pub mul_terms: Vec<(FieldElement, Witness, Witness)>,
    pub linear_combinations: Vec<(FieldElement, Witness)>,
    pub q_c: FieldElement,
}

/// A witness handed to a gadget, with the number of bits the gadget reads.
#[derive(Clone, Copy, Debug)]
pub struct GadgetInput {
    pub witness: Witness,
    pub num_bits: u32,
}

/// The name of a black-box function.
#[derive(Clone, Debug)]
pub enum Opcode {
    Range,
    And,
    Xor,
    /// Any other black-box function, left to the backend.
    Named(String),
}

/// A call of a black-box function.
#[derive(Clone, Debug)]
pub struct GadgetCall {
    pub name: Opcode,
    pub inputs: Vec<GadgetInput>,
    pub outputs: Vec<Witness>,
}

/// Hints that compute witnesses the constraints alone leave open.
#[derive(Clone, Debug)]
pub enum Directive {
    /// `result = 1 / x`, or zero when `x` is zero.
    Invert { x: Witness, result: Witness },
    /// Integer division `a = q * b + r`, forced to zero when the predicate is zero.
    Quotient { a: Expression, b: Expression, q: Witness, r: Witness, predicate: Option<Expression> },
    /// `a = c * 2^bit_size + b` with `b < 2^bit_size`.
    Truncate { a: Witness, b: Witness, c: Witness, bit_size: u32 },
    /// `a = b * 2^(bit_size - 1) + r` with `a < 2^bit_size`.
    Oddrange { a: Witness, b: Witness, r: Witness, bit_size: u32 },
    /// The low `bit_size` bits of `a`, lowest first.
    Split { a: Expression, b: Vec<Witness>, bit_size: u32 },
    /// The low `byte_size` bytes of `a`, lowest first.
    ToBytes { a: Expression, b: Vec<Witness>, byte_size: u32 },
}

/// One gate of a circuit.
#[derive(Clone, Debug)]
pub enum Gate {
    /// The expression must be zero.
    Arithmetic(Expression),
    GadgetCall(GadgetCall),
    Directive(Directive),
}

/// An ordered list of gates with the metadata the solver does not read.
#[derive(Clone, Debug)]
pub struct Circuit {
    pub current_witness_index: u32,
    pub gates: Vec<Gate>,
    pub public_inputs: Vec<Witness>,
}

pub open spec fn lin_defined(t: Seq<(FieldElement, Witness)>, m: Map<u32, nat>) -> bool {
    forall|i: int| 0 <= i < t.len() ==> m.contains_key(#[trigger] t[i].1.0)
}

pub open spec fn mul_defined(t: Seq<(FieldElement, Witness, Witness)>, m: Map<u32, nat>) -> bool {
    forall|i: int|
        0 <= i < t.len() ==> m.contains_key(#[trigger] t[i].1.0) && m.contains_key(t[i].2.0)
}

pub open spec fn lin_sum(t: Seq<(FieldElement, Witness)>, m: Map<u32, nat>) -> int
    decreases t.len(),
{
    if t.len() == 0 {
        0
    } else {
        lin_sum(t.drop_last(), m) + t.last().0.value() * m[t.last().1.0]
    }
}

pub open spec fn mul_sum(t: Seq<(FieldElement, Witness, Witness)>, m: Map<u32, nat>) -> int
    decreases t.len(),
{
    if t.len() == 0 {
        0
    } else {
        mul_sum(t.drop_last(), m) + t.last().0.value() * m[t.last().1.0] * m[t.last().2.0]
    }
}

/// Every witness the expression reads has a value.
pub open spec fn defined(e: Expression, m: Map<u32, nat>) -> bool {
    lin_defined(e.linear_combinations@, m) && mul_defined(e.mul_terms@, m)
}

/// The value of the expression in the field, when every witness it reads is known.
pub open spec fn eval_expr(e: Expression, m: Map<u32, nat>) -> Option<nat> {
    if defined(e, m) {
        Some(
            ((e.q_c.value() + lin_sum(e.linear_combinations@, m) + mul_sum(e.mul_terms@, m))
                % (modulus() as int)) as nat,
        )
    } else {
        None
    }
}

/// The value of `a` under `w`: `None` unless every witness it reads is assigned.
pub fn get_value(a: &Expression, w: &PartialWitness) -> (r: Option<FieldElement>)
    ensures
        r.is_some() == eval_expr(*a, values(w@)).is_some(),
        r.is_some() ==> r.unwrap().value() == eval_expr(*a, values(w@)).unwrap(),
{
    let ghost m = values(w@);
    let ghost p = modulus() as int;
    let mut result = a.q_c;
    proof {
        use_type_invariant(&a.q_c);
        vstd::arithmetic::div_mod::lemma_small_mod(a.q_c.value(), modulus());
    }
    let lin = &a.linear_combinations;
    let mut i: usize = 0;
    while i < lin.len()
        invariant
            0 <= i <= lin@.len(),
            lin@ == a.linear_combinations@,
            m == values(w@),
            p == modulus(),
            lin_defined(lin@.subrange(0, i as int), m),
            result.value() == (a.q_c.value() + lin_sum(lin@.subrange(0, i as int), m)) % p,
        decreases lin@.len() - i,
    {
        let (c, wi) = lin[i];
        match w.get(&wi.0) {
            Some(f) => {
                let t = c.mul(*f);
                result = result.add(t);
                proof {
                    let s = lin@.subrange(0, i + 1);
                    assert(s.drop_last() =~= lin@.subrange(0, i as int));
                    assert(m[wi.0] == f.value());
                    vstd::arithmetic::div_mod::lemma_add_mod_noop(
                        a.q_c.value() + lin_sum(lin@.subrange(0, i as int), m),
                        (c.value() * f.value()) as int,
                        p,
                    );
                    vstd::arithmetic::div_mod::lemma_mod_twice(
                        (c.value() * f.value()) as int, p);
                    assert(lin_defined(s, m)) by {
                        assert forall|j: int| 0 <= j < s.len() implies m.contains_key(
                            #[trigger] s[j].1.0,
                        ) by {
                            if j < i {
                                assert(s[j] == lin@.subrange(0, i as int)[j]);
                            }
                        }
                    }
                }
            },
            None => {
                proof {
                    assert(!w@.contains_key(wi.0));
                    assert(!m.contains_key(lin@[i as int].1.0));
                    assert(!lin_defined(lin@, m));
                    assert(lin@ == a.linear_combinations@);
                    assert(!lin_defined(a.linear_combinations@, m));
                }
                return None;
            },
        }
        i = i + 1;
    }
    assert(lin@.subrange(0, lin@.len() as int) =~= lin@);
    let mt = &a.mul_terms;
    let mut k: usize = 0;
    while k < mt.len()
        invariant
            0 <= k <= mt@.len(),
            lin@ == a.linear_combinations@,
            mt@ == a.mul_terms@,
            m == values(w@),
            p == modulus(),
            lin_defined(lin@, m),
            mul_defined(mt@.subrange(0, k as int), m),
            result.value() == (a.q_c.value() + lin_sum(lin@, m) + mul_sum(
                mt@.subrange(0, k as int),
                m,
            )) % p,
        decreases mt@.len() - k,
    {
        let (c, wa, wb) = mt[k];
        match (w.get(&wa.0), w.get(&wb.0)) {
            (Some(fa), Some(fb)) => {
                let t1 = c.mul(*fa);
                let t2 = t1.mul(*fb);
                result = result.add(t2);
                proof {
                    let s = mt@.subrange(0, k + 1);
                    assert(s.drop_last() =~= mt@.subrange(0, k as int));
                    let base = a.q_c.value() + lin_sum(lin@, m) + mul_sum(
                        mt@.subrange(0, k as int),
                        m,
                    );
                    vstd::arithmetic::div_mod::lemma_mul_mod_noop_left(
                        (c.value() * fa.value()) as int,
                        fb.value() as int,
                        p,
                    );
                    vstd::arithmetic::div_mod::lemma_add_mod_noop(
                        base,
                        (c.value() * fa.value() * fb.value()) as int,
                        p,
                    );
                    vstd::arithmetic::div_mod::lemma_mod_twice(
                        (c.value() * fa.value() * fb.value()) as int, p);
                    assert(mul_defined(s, m)) by {
                        assert forall|j: int| 0 <= j < s.len() implies m.contains_key(
                            #[trigger] s[j].1.0,
                        ) && m.contains_key(s[j].2.0) by {
                            if j < k {
                                assert(s[j] == mt@.subrange(0, k as int)[j]);
                            }
                        }
                    }
                }
            },
            _ => {
                proof {
                    assert(!w@.contains_key(wa.0) || !w@.contains_key(wb.0));
                    assert(!m.contains_key(mt@[k as int].1.0) || !m.contains_key(
                        mt@[k as int].2.0,
                    ));
                    assert(!mul_defined(mt@, m));
                    assert(!defined(*a, m));
                }
                return None;
            },
        }
        k = k + 1;
    }
    assert(mt@.subrange(0, mt@.len() as int) =~= mt@);
    Some(result)
}

} // verus!
