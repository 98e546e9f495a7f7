//! Directives: hints that compute witnesses from others by integer arithmetic.
use vstd::prelude::*;
use vstd::arithmetic::power2::{pow2, lemma_pow2_pos, lemma_pow2_unfold};
use vstd::arithmetic::div_mod::{lemma_small_mod, lemma_fundamental_div_mod};
use crate::circuit::{Directive, Expression, PartialWitness, eval_expr, get_value, values};
use crate::field::{FieldElement, be_nat, big_bit, big_div, big_lt, big_pow2, big_rem, big_sub, modulus};
use crate::pwg::GateResolution;
use crate::circuit::Witness;
use crate::store::{keeps_values, assign_all, assign_seq, conflicts, key_seq, set_value, val_seq};

verus! {

/// `v` is the inverse of `x` in the field, or zero where `x` has none.
pub open spec fn is_inverse(x: nat, v: nat) -> bool {
    &&& v < modulus()
    &&& x % modulus() == 0 ==> v == 0
    &&& x % modulus() != 0 ==> (v * x) % modulus() == 1
}

/// The value of an optional predicate; a missing one counts as one.
pub open spec fn predicate_value(p: Option<Expression>, m: Map<u32, nat>) -> Option<nat> {
    match p {
        None => Some(1),
        Some(e) => eval_expr(e, m),
    }
}

/// What an Invert, Quotient, Truncate or Oddrange directive does to the assignment `m`.
pub open spec fn arith_directive_step(d: Directive, m: Map<u32, nat>, r: GateResolution, m2: Map<u32, nat>) -> bool {
    match d {
        Directive::Invert { x, result } => if !m.contains_key(x.0) {
            r is Skip && m2 == m
        } else {
            &&& r is Resolved
            &&& m2.contains_key(result.0)
            &&& m2 == m.insert(result.0, m2[result.0])
            &&& is_inverse(m[x.0], m2[result.0])
        },
        Directive::Quotient { a, b, q, r: rw, predicate } => {
            let ea = eval_expr(a, m);
            let eb = eval_expr(b, m);
            let ep = predicate_value(predicate, m);
            if ea is None || eb is None || ep is None {
                r is Skip && m2 == m
            } else if ep.unwrap() == 0 {
                r is Resolved && m2 == m.insert(q.0, 0).insert(rw.0, 0)
            } else if eb.unwrap() == 0 {
                r is UnknownError && m2 == m
            } else {
                r is Resolved && m2 == m.insert(q.0, ea.unwrap() / eb.unwrap()).insert(
                    rw.0,
                    ea.unwrap() % eb.unwrap(),
                )
            }
        },
        Directive::Truncate { a, b, c, bit_size } => if !m.contains_key(a.0) {
            r is Skip && m2 == m
        } else {
            r is Resolved && m2 == m.insert(b.0, m[a.0] % pow2(bit_size as nat)).insert(
                c.0,
                m[a.0] / pow2(bit_size as nat),
            )
        },
        Directive::Oddrange { a, b, r: rw, bit_size } => if !m.contains_key(a.0) {
            r is Skip && m2 == m
        } else if bit_size == 0 {
            r is UnknownError && m2 == m
        } else if m[a.0] >= pow2(bit_size as nat) {
            r is UnsatisfiedConstrain && m2 == m
        } else {
            let half = pow2((bit_size - 1) as nat);
            r is Resolved && m2 == m.insert(b.0, (m[a.0] / half) % 2).insert(rw.0, m[a.0] % half)
        },
        _ => true,
    }
}

proof fn lemma_below_modulus(x: nat, d: nat)
    requires
        x < modulus(),
        d > 0,
    ensures
        x / d < modulus(),
        x % d < modulus(),
        (x / d) % modulus() == x / d,
        (x % d) % modulus() == x % d,
{
    assert(x / d <= x) by (nonlinear_arith)
        requires
            d > 0,
    ;
    assert(x % d <= x) by {
        lemma_fundamental_div_mod(x as int, d as int);
        assert(d * (x / d) >= 0) by (nonlinear_arith)
            requires
                d > 0,
        ;
    }
    lemma_small_mod(x / d, modulus());
    lemma_small_mod(x % d, modulus());
}

fn solve_invert(w: &mut PartialWitness, d: &Directive) -> (r: GateResolution)
    requires
        d is Invert,
    ensures
        arith_directive_step(*d, values(old(w)@), r, values(final(w)@)),
{
    let Directive::Invert { x, result } = d else { return GateResolution::Skip };
    match w.get(&x.0) {
        None => GateResolution::Skip,
        Some(val) => {
            let inv = val.inverse();
            proof {
                use_type_invariant(&inv);
            }
            set_value(w, result.0, inv);
            GateResolution::Resolved
        },
    }
}

fn solve_quotient(w: &mut PartialWitness, d: &Directive) -> (r: GateResolution)
    requires
        d is Quotient,
    ensures
        arith_directive_step(*d, values(old(w)@), r, values(final(w)@)),
{
    let Directive::Quotient { a, b, q, r, predicate } = d else { return GateResolution::Skip };
    let (val_a, val_b) = match (get_value(a, w), get_value(b, w)) {
        (Some(va), Some(vb)) => (va, vb),
        _ => return GateResolution::Skip,
    };
    let pred = match predicate {
        None => Some(FieldElement::one()),
        Some(p) => get_value(p, w),
    };
    let pred_value = match pred {
        None => return GateResolution::Skip,
        Some(p) => p,
    };
    proof {
        use_type_invariant(&val_a);
        use_type_invariant(&val_b);
        use_type_invariant(&pred_value);
        lemma_small_mod(pred_value.value(), modulus());
    }
    if pred_value.is_zero() {
        let z = FieldElement::zero();
        set_value(w, q.0, z);
        set_value(w, r.0, z);
        return GateResolution::Resolved;
    }
    let bytes_a = val_a.to_bytes();
    let bytes_b = val_b.to_bytes();
    if val_b.is_zero() {
        proof {
            lemma_small_mod(val_b.value(), modulus());
        }
        return GateResolution::UnknownError("division by zero".to_string());
    }
    proof {
        lemma_small_mod(val_b.value(), modulus());
        lemma_below_modulus(val_a.value(), val_b.value());
    }
    let int_r = big_rem(bytes_a.as_slice(), bytes_b.as_slice());
    let int_q = big_div(bytes_a.as_slice(), bytes_b.as_slice());
    set_value(w, q.0, FieldElement::from_be_bytes_reduce(int_q.as_slice()));
    set_value(w, r.0, FieldElement::from_be_bytes_reduce(int_r.as_slice()));
    GateResolution::Resolved
}

fn solve_truncate(w: &mut PartialWitness, d: &Directive) -> (r: GateResolution)
    requires
        d is Truncate,
    ensures
        arith_directive_step(*d, values(old(w)@), r, values(final(w)@)),
{
    let Directive::Truncate { a, b, c, bit_size } = d else { return GateResolution::Skip };
    let val_a = match w.get(&a.0) {
        None => return GateResolution::Skip,
        Some(v) => *v,
    };
    proof {
        use_type_invariant(&val_a);
        lemma_pow2_pos(*bit_size as nat);
        lemma_below_modulus(val_a.value(), pow2(*bit_size as nat));
    }
    let pow = big_pow2(*bit_size);
    let int_a = val_a.to_bytes();
    let int_b = big_rem(int_a.as_slice(), pow.as_slice());
    let int_c = big_div(int_a.as_slice(), pow.as_slice());
    set_value(w, b.0, FieldElement::from_be_bytes_reduce(int_b.as_slice()));
    set_value(w, c.0, FieldElement::from_be_bytes_reduce(int_c.as_slice()));
    GateResolution::Resolved
}

fn solve_oddrange(w: &mut PartialWitness, d: &Directive) -> (r: GateResolution)
    requires
        d is Oddrange,
    ensures
        arith_directive_step(*d, values(old(w)@), r, values(final(w)@)),
{
    let Directive::Oddrange { a, b, r, bit_size } = d else { return GateResolution::Skip };
    let val_a = match w.get(&a.0) {
        None => return GateResolution::Skip,
        Some(v) => *v,
    };
    if *bit_size == 0 {
        return GateResolution::UnknownError("odd range needs a positive bit size".to_string());
    }
    let int_a = val_a.to_bytes();
    let bound = big_pow2(*bit_size);
    if !big_lt(int_a.as_slice(), bound.as_slice()) {
        return GateResolution::UnsatisfiedConstrain;
    }
    let k = *bit_size - 1;
    let half = big_pow2(k);
    let top = big_bit(int_a.as_slice(), k as u64);
    let ghost x = val_a.value() as int;
    let ghost h = pow2(k as nat) as int;
    proof {
        use_type_invariant(&val_a);
        lemma_pow2_pos(k as nat);
        lemma_pow2_unfold(*bit_size as nat);
        lemma_fundamental_div_mod(x, h);
        vstd::arithmetic::div_mod::lemma_mod_bound(x, h);
        let qq = x / h;
        assert(0 <= qq < 2) by (nonlinear_arith)
            requires
                x == h * qq + x % h,
                0 <= x % h < h,
                0 <= x < 2 * h,
        ;
        assert(qq % 2 == qq);
        assert(top == (qq == 1));
        if qq == 1 {
            assert(h * qq == h) by (nonlinear_arith)
                requires
                    qq == 1,
            ;
            assert(x - h == x % h);
        } else {
            assert(h * qq == 0) by (nonlinear_arith)
                requires
                    qq == 0,
            ;
            assert(x == x % h);
        }
        lemma_below_modulus(val_a.value(), pow2(k as nat));
        lemma_small_mod(1, modulus());
        lemma_small_mod(0, modulus());
    }
    let int_r = if top {
        big_sub(int_a.as_slice(), half.as_slice())
    } else {
        int_a
    };
    let bit_value = if top {
        FieldElement::one()
    } else {
        FieldElement::zero()
    };
    set_value(w, b.0, bit_value);
    set_value(w, r.0, FieldElement::from_be_bytes_reduce(int_r.as_slice()));
    GateResolution::Resolved
}

/// Bit `i` of `v`, for each `i < n`, lowest first.
pub open spec fn bit_digits(v: nat, n: nat) -> Seq<nat> {
    Seq::new(n, |i: int| (v / pow2(i as nat)) % 2)
}

/// Byte `i` of `v`, for each `i < n`, lowest first.
pub open spec fn byte_digits(v: nat, n: nat) -> Seq<nat> {
    Seq::new(n, |i: int| (v / pow2(8 * i as nat)) % 256)
}

/// What a Split or ToBytes directive does: `value` is the expression's
/// value, `fits` whether `n` digits can be taken, `digits` those digits.
pub open spec fn digits_step(
    value: Option<nat>,
    b: Seq<Witness>,
    n: nat,
    fits: bool,
    digits: Seq<nat>,
    m: Map<u32, nat>,
    r: GateResolution,
    m2: Map<u32, nat>,
) -> bool {
    if value is None {
        r is Skip && m2 == m
    } else if !fits || b.len() < n {
        r is UnknownError && m2 == m
    } else if conflicts(m, key_seq(b.subrange(0, n as int)), digits) {
        r is UnsatisfiedConstrain && keeps_values(m, m2)
    } else {
        r is Resolved && m2 == assign_seq(m, key_seq(b.subrange(0, n as int)), digits) && keeps_values(
            m,
            m2,
        )
    }
}

fn solve_split(w: &mut PartialWitness, d: &Directive) -> (r: GateResolution)
    requires
        d is Split,
    ensures
        match *d {
            Directive::Split { a, b, bit_size } => {
                let ev = eval_expr(a, values(old(w)@));
                digits_step(ev, b@, bit_size as nat, true, bit_digits(ev.unwrap(), bit_size as nat),
                    values(old(w)@), r, values(final(w)@))
            },
            _ => true,
        },
{
    let Directive::Split { a, b, bit_size } = d else { return GateResolution::Skip };
    let val_a = match get_value(a, w) {
        None => return GateResolution::Skip,
        Some(v) => v,
    };
    if b.len() < *bit_size as usize {
        return GateResolution::UnknownError("split has fewer outputs than bits".to_string());
    }
    let a_bytes = val_a.to_bytes();
    let n = *bit_size as usize;
    let mut vals: Vec<FieldElement> = Vec::new();
    let mut i: usize = 0;
    while i < n
        invariant
            0 <= i <= n,
            be_nat(a_bytes@) == val_a.value(),
            vals@.len() == i,
            forall|j: int| 0 <= j < i ==> #[trigger] vals@[j].value() == (val_a.value() / pow2(j as nat)) % 2,
        decreases n - i,
    {
        let v = if big_bit(a_bytes.as_slice(), i as u64) {
            FieldElement::one()
        } else {
            FieldElement::zero()
        };
        proof {
            vstd::arithmetic::div_mod::lemma_mod_bound((val_a.value() / pow2(i as nat)) as int, 2);
        }
        vals.push(v);
        i = i + 1;
    }
    proof {
        assert(vals@.subrange(0, n as int) =~= vals@);
        assert(val_seq(vals@) =~= bit_digits(val_a.value(), n as nat));
    }
    if assign_all(w, b, &vals, n) {
        GateResolution::Resolved
    } else {
        GateResolution::UnsatisfiedConstrain
    }
}

/// The `i`-th byte from the end of a big-endian byte string is the `i`-th
/// base-256 digit of its value.
proof fn lemma_be_digit(s: Seq<u8>, i: nat)
    requires
        i < s.len(),
    ensures
        s[s.len() - 1 - i] as nat == (be_nat(s) / pow2(8 * i)) % 256,
    decreases s.len(),
{
    let t = s.drop_last();
    vstd::arithmetic::power2::lemma2_to64();
    vstd::arithmetic::div_mod::lemma_fundamental_div_mod_converse(
        be_nat(s) as int,
        256,
        be_nat(t) as int,
        s.last() as int,
    );
    if i == 0 {
        assert(be_nat(s) / pow2(0) == be_nat(s));
    } else {
        lemma_be_digit(t, (i - 1) as nat);
        vstd::arithmetic::power2::lemma_pow2_adds(8, (8 * (i - 1)) as nat);
        assert(8 + 8 * (i - 1) == 8 * i);
        lemma_pow2_pos((8 * (i - 1)) as nat);
        vstd::arithmetic::div_mod::lemma_div_denominator(
            be_nat(s) as int,
            256,
            pow2((8 * (i - 1)) as nat) as int,
        );
        assert(t[t.len() - 1 - (i - 1)] == s[s.len() - 1 - i]);
    }
}

fn solve_to_bytes(w: &mut PartialWitness, d: &Directive) -> (r: GateResolution)
    requires
        d is ToBytes,
    ensures
        match *d {
            Directive::ToBytes { a, b, byte_size } => {
                let ev = eval_expr(a, values(old(w)@));
                digits_step(ev, b@, byte_size as nat, byte_size <= 32,
                    byte_digits(ev.unwrap(), byte_size as nat), values(old(w)@), r, values(final(w)@))
            },
            _ => true,
        },
{
    let Directive::ToBytes { a, b, byte_size } = d else { return GateResolution::Skip };
    let val_a = match get_value(a, w) {
        None => return GateResolution::Skip,
        Some(v) => v,
    };
    if *byte_size > 32 || b.len() < *byte_size as usize {
        return GateResolution::UnknownError("to_bytes asks for more bytes than it can take".to_string());
    }
    let a_bytes = val_a.to_bytes();
    let n = *byte_size as usize;
    let mut vals: Vec<FieldElement> = Vec::new();
    let mut i: usize = 0;
    while i < n
        invariant
            0 <= i <= n,
            n <= 32,
            a_bytes@.len() == 32,
            be_nat(a_bytes@) == val_a.value(),
            vals@.len() == i,
            forall|j: int| 0 <= j < i ==> #[trigger] vals@[j].value() == (val_a.value() / pow2(8 * j as nat)) % 256,
        decreases n - i,
    {
        let idx: usize = 31 - i;
        let one_byte: Vec<u8> = vec![a_bytes[idx]];
        let v = FieldElement::from_be_bytes_reduce(one_byte.as_slice());
        proof {
            let s = one_byte@;
            assert(s.len() == 1);
            assert(s.drop_last() =~= Seq::<u8>::empty());
            assert(be_nat(s.drop_last()) == 0);
            assert(be_nat(s) == s[0] as nat);
            lemma_small_mod(s[0] as nat, modulus());
            lemma_be_digit(a_bytes@, i as nat);
        }
        vals.push(v);
        i = i + 1;
    }
    proof {
        assert(vals@.subrange(0, n as int) =~= vals@);
        assert(val_seq(vals@) =~= byte_digits(val_a.value(), n as nat));
    }
    if assign_all(w, b, &vals, n) {
        GateResolution::Resolved
    } else {
        GateResolution::UnsatisfiedConstrain
    }
}

/// What a directive does to the assignment `m`, with outcome `r` and the assignment `m2` after it.
pub open spec fn directive_step(d: Directive, m: Map<u32, nat>, r: GateResolution, m2: Map<u32, nat>) -> bool {
    match d {
        Directive::Split { a, b, bit_size } => {
            let ev = eval_expr(a, m);
            digits_step(ev, b@, bit_size as nat, true, bit_digits(ev.unwrap(), bit_size as nat), m, r, m2)
        },
        Directive::ToBytes { a, b, byte_size } => {
            let ev = eval_expr(a, m);
            digits_step(ev, b@, byte_size as nat, byte_size <= 32,
                byte_digits(ev.unwrap(), byte_size as nat), m, r, m2)
        },
        _ => arith_directive_step(d, m, r, m2),
    }
}

/// Evaluates one directive against the partial witness.
pub fn solve_directive(w: &mut PartialWitness, d: &Directive) -> (r: GateResolution)
    ensures
        directive_step(*d, values(old(w)@), r, values(final(w)@)),
{
    match d {
        Directive::Invert { .. } => solve_invert(w, d),
        Directive::Quotient { .. } => solve_quotient(w, d),
        Directive::Truncate { .. } => solve_truncate(w, d),
        Directive::Oddrange { .. } => solve_oddrange(w, d),
        Directive::Split { .. } => solve_split(w, d),
        Directive::ToBytes { .. } => solve_to_bytes(w, d),
    }
}

} // verus!
