//! Field elements of the BN254 scalar field, held as their canonical
//! big-endian bytes, and the big-integer arithmetic the solver needs.
use vstd::prelude::*;
use vstd::arithmetic::power2::pow2;
use num_bigint::BigUint;
use num_traits::One;

verus! {

/// The prime order of the scalar field.
pub open spec fn modulus() -> nat {
    0x30644e72e131a029b85045b68181585d_nat * 0x100000000000000000000000000000000_nat
        + 0x2833e84879b9709143e1f593f0000001_nat
}

/// The natural number written by big-endian bytes.
pub open spec fn be_nat(s: Seq<u8>) -> nat
    decreases s.len(),
{
    if s.len() == 0 {
        0
    } else {
        be_nat(s.drop_last()) * 256 + s.last() as nat
    }
}

/// Number of bits needed to write `n` (zero for zero).
pub open spec fn bit_len(n: nat) -> nat
    decreases n,
{
    if n == 0 {
        0
    } else {
        1 + bit_len(n / 2)
    }
}

/// Bitwise AND of two naturals.
pub open spec fn and_nat(x: nat, y: nat) -> nat
    decreases x,
{
    if x == 0 || y == 0 {
        0
    } else {
        2 * and_nat(x / 2, y / 2) + (x % 2) * (y % 2)
    }
}

/// Bitwise XOR of two naturals.
pub open spec fn xor_nat(x: nat, y: nat) -> nat
    decreases x + y,
{
    if x == 0 {
        y
    } else if y == 0 {
        x
    } else {
        2 * xor_nat(x / 2, y / 2) + (if x % 2 == y % 2 { 0nat } else { 1nat })
    }
}

/// A field element, stored as the 32 big-endian bytes of its canonical
/// representative.
#[derive(Clone, Copy, Debug)]
pub struct FieldElement {
    bytes: [u8; 32],
}

impl FieldElement {
    /// The integer in `[0, modulus())` that this element stands for.
    pub closed spec fn value(&self) -> nat {
        be_nat(self.bytes@)
    }

    #[verifier::type_invariant]
    pub open spec fn canonical(&self) -> bool {
        self.value() < modulus()
    }

    /// The big-endian bytes of the canonical representative.
    pub fn to_bytes(&self) -> (r: Vec<u8>)
        ensures
            be_nat(r@) == self.value(),
            r@.len() == 32,
    {
        let mut r: Vec<u8> = Vec::new();
        let mut i: usize = 0;
        while i < 32
            invariant
                0 <= i <= 32,
                r@ == self.bytes@.subrange(0, i as int),
            decreases 32 - i,
        {
            r.push(self.bytes[i]);
            i = i + 1;
        }
        assert(r@ =~= self.bytes@);
        r
    }

    /// Relies on acir_field's `From<u128>`: the element whose value is `n`.
    #[verifier::external_body]
    pub fn from_u128(n: u128) -> (r: FieldElement)
        ensures
            r.value() == n as nat,
    {
        FieldElement { bytes: acir::FieldElement::from(n).to_bytes().try_into().unwrap() }
    }

    /// Relies on acir_field's `FieldElement::from_be_bytes_reduce`: the
    /// big-endian integer reduced modulo the field order.
    #[verifier::external_body]
    pub fn from_be_bytes_reduce(b: &[u8]) -> (r: FieldElement)
        ensures
            r.value() == be_nat(b@) % modulus(),
    {
        let f = acir::FieldElement::from_be_bytes_reduce(b);
        FieldElement { bytes: f.to_bytes().try_into().unwrap() }
    }

    pub fn zero() -> (r: FieldElement)
        ensures
            r.value() == 0,
    {
        FieldElement::from_u128(0)
    }

    pub fn one() -> (r: FieldElement)
        ensures
            r.value() == 1,
    {
        FieldElement::from_u128(1)
    }

    /// Relies on acir_field's `Add` for field elements: addition modulo the order.
    #[verifier::external_body]
    pub fn add(self, rhs: FieldElement) -> (r: FieldElement)
        ensures
            r.value() == (self.value() + rhs.value()) % modulus(),
    {
        let s = acir::FieldElement::from_be_bytes_reduce(&self.bytes)
            + acir::FieldElement::from_be_bytes_reduce(&rhs.bytes);
        FieldElement { bytes: s.to_bytes().try_into().unwrap() }
    }

    /// Relies on acir_field's `Mul` for field elements: product modulo the order.
    #[verifier::external_body]
    pub fn mul(self, rhs: FieldElement) -> (r: FieldElement)
        ensures
            r.value() == (self.value() * rhs.value()) % modulus(),
    {
        let p = acir::FieldElement::from_be_bytes_reduce(&self.bytes)
            * acir::FieldElement::from_be_bytes_reduce(&rhs.bytes);
        FieldElement { bytes: p.to_bytes().try_into().unwrap() }
    }

    /// Relies on acir_field's `FieldElement::inverse`: the multiplicative
    /// inverse, or zero for zero.
    #[verifier::external_body]
    pub fn inverse(&self) -> (r: FieldElement)
        ensures
            self.value() % modulus() == 0 ==> r.value() == 0,
            self.value() % modulus() != 0 ==> (r.value() * self.value()) % modulus() == 1,
    {
        let i = acir::FieldElement::from_be_bytes_reduce(&self.bytes).inverse();
        FieldElement { bytes: i.to_bytes().try_into().unwrap() }
    }

    /// Relies on acir_field's `FieldElement::is_zero`.
    #[verifier::external_body]
    pub fn is_zero(&self) -> (r: bool)
        ensures
            r == (self.value() % modulus() == 0),
    {
        acir::FieldElement::from_be_bytes_reduce(&self.bytes).is_zero()
    }

    /// Relies on acir_field's `PartialEq` for field elements: equal residues.
    #[verifier::external_body]
    pub fn same_as(&self, other: &FieldElement) -> (r: bool)
        ensures
            r == (self.value() % modulus() == other.value() % modulus()),
    {
        acir::FieldElement::from_be_bytes_reduce(&self.bytes)
            == acir::FieldElement::from_be_bytes_reduce(&other.bytes)
    }

    /// Relies on acir_field's `FieldElement::num_bits`: the bit length of
    /// the canonical representative.
    #[verifier::external_body]
    pub fn num_bits(&self) -> (r: u32)
        ensures
            r as nat == bit_len(self.value() % modulus()),
    {
        acir::FieldElement::from_be_bytes_reduce(&self.bytes).num_bits()
    }

    /// Relies on acir_field's `FieldElement::and`: both operands cut to their
    /// low `num_bits` bits, then combined bit by bit.
    #[verifier::external_body]
    pub fn and(&self, rhs: &FieldElement, num_bits: u32) -> (r: FieldElement)
        ensures
            r.value() == and_nat(
                (self.value() % modulus()) % pow2(num_bits as nat),
                (rhs.value() % modulus()) % pow2(num_bits as nat),
            ) % modulus(),
    {
        let a = acir::FieldElement::from_be_bytes_reduce(&self.bytes);
        let b = acir::FieldElement::from_be_bytes_reduce(&rhs.bytes);
        FieldElement { bytes: a.and(&b, num_bits).to_bytes().try_into().unwrap() }
    }

    /// Relies on acir_field's `FieldElement::xor`: both operands cut to their
    /// low `num_bits` bits, then combined bit by bit.
    #[verifier::external_body]
    pub fn xor(&self, rhs: &FieldElement, num_bits: u32) -> (r: FieldElement)
        ensures
            r.value() == xor_nat(
                (self.value() % modulus()) % pow2(num_bits as nat),
                (rhs.value() % modulus()) % pow2(num_bits as nat),
            ) % modulus(),
    {
        let a = acir::FieldElement::from_be_bytes_reduce(&self.bytes);
        let b = acir::FieldElement::from_be_bytes_reduce(&rhs.bytes);
        FieldElement { bytes: a.xor(&b, num_bits).to_bytes().try_into().unwrap() }
    }
}

/// Relies on num-bigint's `Rem` for `BigUint`, read from and written to
/// big-endian bytes.
#[verifier::external_body]
pub(crate) fn big_rem(a: &[u8], b: &[u8]) -> (r: Vec<u8>)
    requires
        be_nat(b@) > 0,
    ensures
        be_nat(r@) == be_nat(a@) % be_nat(b@),
{
    (BigUint::from_bytes_be(a) % BigUint::from_bytes_be(b)).to_bytes_be()
}

/// Relies on num-bigint's `Div` for `BigUint`, read from and written to
/// big-endian bytes.
#[verifier::external_body]
pub(crate) fn big_div(a: &[u8], b: &[u8]) -> (r: Vec<u8>)
    requires
        be_nat(b@) > 0,
    ensures
        be_nat(r@) == be_nat(a@) / be_nat(b@),
{
    (BigUint::from_bytes_be(a) / BigUint::from_bytes_be(b)).to_bytes_be()
}

/// Relies on num-bigint's `Sub` for `BigUint`, read from and written to
/// big-endian bytes.
#[verifier::external_body]
pub(crate) fn big_sub(a: &[u8], b: &[u8]) -> (r: Vec<u8>)
    requires
        be_nat(a@) >= be_nat(b@),
    ensures
        be_nat(r@) == be_nat(a@) - be_nat(b@),
{
    (BigUint::from_bytes_be(a) - BigUint::from_bytes_be(b)).to_bytes_be()
}

/// Relies on num-bigint's `Shl` of `BigUint::one()`: the power of two.
#[verifier::external_body]
pub(crate) fn big_pow2(k: u32) -> (r: Vec<u8>)
    ensures
        be_nat(r@) == pow2(k as nat),
{
    (BigUint::one() << k).to_bytes_be()
}

/// Relies on num-bigint's `BigUint::bit`: bit `j` of the integer.
#[verifier::external_body]
pub(crate) fn big_bit(a: &[u8], j: u64) -> (r: bool)
    ensures
        r == ((be_nat(a@) / pow2(j as nat)) % 2 == 1),
{
    BigUint::from_bytes_be(a).bit(j)
}

/// Relies on num-bigint's `Ord` for `BigUint`.
#[verifier::external_body]
pub(crate) fn big_lt(a: &[u8], b: &[u8]) -> (r: bool)
    ensures
        r == (be_nat(a@) < be_nat(b@)),
{
    BigUint::from_bytes_be(a) < BigUint::from_bytes_be(b)
}

} // verus!
