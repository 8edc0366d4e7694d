use sapling_crypto_ce::bellman::pairing::bn256::Fr;
use sapling_crypto_ce::bellman::pairing::ff::{PrimeField, PrimeFieldRepr};
use num_bigint::BigInt;
use num_traits::Num;
use crate::error::MerkleError;
use vstd::prelude::*;
use vstd::arithmetic::div_mod::lemma_small_mod;

verus! {

/// The order of the BN256 scalar field.
pub open spec fn field_modulus() -> int {
    (0x30644e72e131a029b85045b68181585du128 as int) * (0x10000000000000000u128 as int) * (
    0x10000000000000000u128 as int) + (0x2833e84879b9709143e1f593f0000001u128 as int)
}

/// The number a byte string denotes, read big-endian.
pub open spec fn be_value(s: Seq<u8>) -> int
    decreases s.len(),
{
    if s.len() == 0 {
        0
    } else {
        be_value(s.drop_last()) * 256 + s.last()
    }
}

/// The ASCII code of the lower-case hex digit for `v` (0 to 15).
pub open spec fn hex_digit(v: int) -> u8 {
    if v < 10 {
        (48 + v) as u8
    } else {
        (87 + v) as u8
    }
}

/// Two lower-case hex digits per byte, most significant nibble first.
pub open spec fn hex_text(s: Seq<u8>) -> Seq<u8>
    decreases s.len(),
{
    if s.len() == 0 {
        seq![]
    } else {
        hex_text(s.drop_last()) + seq![hex_digit(s.last() as int / 16), hex_digit(s.last() as int % 16)]
    }
}

pub open spec fn is_hex_char(c: u8) -> bool {
    (48 <= c <= 57) || (97 <= c <= 102) || (65 <= c <= 70)
}

pub open spec fn hex_char_value(c: u8) -> int {
    if 48 <= c <= 57 {
        c - 48
    } else if 97 <= c <= 102 {
        c - 87
    } else {
        c - 55
    }
}

/// A non-empty run of hex digits, of either case.
pub open spec fn is_hex_text(s: Seq<u8>) -> bool {
    s.len() > 0 && forall|i: int| 0 <= i < s.len() ==> is_hex_char(#[trigger] s[i])
}

/// The number that a run of hex digits denotes.
pub open spec fn hex_value(s: Seq<u8>) -> int
    decreases s.len(),
{
    if s.len() == 0 {
        0
    } else {
        hex_value(s.drop_last()) * 16 + hex_char_value(s.last())
    }
}

/// The field element that a hex text decodes to: its number, reduced.
pub open spec fn decoded_value(s: Seq<u8>) -> int {
    hex_value(s) % field_modulus()
}

/// The field element that a leaf's bytes stand for: their big-endian
/// number, reduced.
pub open spec fn leaf_value(s: Seq<u8>) -> int {
    be_value(s) % field_modulus()
}

/// The canonical hex text of the element whose value is `v`.
pub open spec fn canonical_hex(v: int) -> Seq<u8> {
    hex_text(choose|b: Seq<u8>| b.len() == 32 && be_value(b) == v)
}

/// An element of the BN256 scalar field, held as its canonical 32-byte
/// big-endian representation.
#[derive(Clone, Debug, PartialEq, Eq)]
pub struct FieldElement {
    pub bytes: Vec<u8>,
}

impl View for FieldElement {
    type V = int;

    open spec fn view(&self) -> int {
        be_value(self.bytes@)
    }
}

impl FieldElement {
    /// Canonical: exactly 32 bytes, and below the modulus.
    pub open spec fn wf(&self) -> bool {
        &&& self.bytes@.len() == 32
        &&& self@ < field_modulus()
    }

    /// A copy holding the same bytes.
    pub fn copy(&self) -> (r: FieldElement)
        ensures
            r.bytes@ == self.bytes@,
    {
        FieldElement { bytes: self.bytes.clone() }
    }

    /// The field's zero.
    pub fn zero() -> (r: FieldElement)
        ensures
            r.wf(),
            r@ == 0,
    {
        let r = FieldElement { bytes: vec![0u8; 32] };
        proof {
            lemma_zero_bytes(r.bytes@);
        }
        r
    }
}

proof fn lemma_zero_bytes(s: Seq<u8>)
    requires
        forall|i: int| 0 <= i < s.len() ==> s[i] == 0,
    ensures
        be_value(s) == 0,
    decreases s.len(),
{
    if s.len() > 0 {
        lemma_zero_bytes(s.drop_last());
    }
}

/// Relies on hex::encode: two lower-case hex digits per byte, most
/// significant nibble first.
#[verifier::external_body]
fn to_hex(b: &Vec<u8>) -> (r: Vec<u8>)
    ensures
        r@ == hex_text(b@),
{
    hex::encode(b).into_bytes()
}

/// Relies on num_bigint's `BigInt::from_str_radix` (base 16) and
/// `to_str_radix` (base 10), then ff's `Fr::from_str`, which folds the
/// decimal digits into the field (so the number is reduced modulo the field
/// order), and `write_be` of the canonical representation.
#[verifier::external_body]
fn field_from_hex(text: &Vec<u8>) -> (r: FieldElement)
    requires
        is_hex_text(text@),
    ensures
        r.wf(),
        r@ == decoded_value(text@),
{
    let big = BigInt::from_str_radix(std::str::from_utf8(text).unwrap(), 16).unwrap();
    let fr = Fr::from_str(&big.to_str_radix(10)).unwrap();
    let mut bytes: Vec<u8> = Vec::new();
    fr.into_repr().write_be(&mut bytes).unwrap();
    FieldElement { bytes }
}


/// Whether `text` is a non-empty run of hex digits.
pub fn is_hex_bytes(text: &Vec<u8>) -> (r: bool)
    ensures
        r == is_hex_text(text@),
{
    if text.len() == 0 {
        return false;
    }
    let mut i: usize = 0;
    while i < text.len()
        invariant
            i <= text@.len(),
            forall|j: int| 0 <= j < i ==> is_hex_char(#[trigger] text@[j]),
        decreases text@.len() - i,
    {
        let c = text[i];
        if !((48 <= c && c <= 57) || (97 <= c && c <= 102) || (65 <= c && c <= 70)) {
            return false;
        }
        i = i + 1;
    }
    true
}

/// Reads hex text as a big integer and reduces it into the field.
pub fn decode(text: &Vec<u8>) -> (r: Result<FieldElement, MerkleError>)
    ensures
        is_hex_text(text@) <==> r is Ok,
        r is Ok ==> r->Ok_0.wf() && r->Ok_0@ == decoded_value(text@),
        r is Err ==> r->Err_0 == MerkleError::InvalidEncoding,
{
    if is_hex_bytes(text) {
        Ok(field_from_hex(text))
    } else {
        Err(MerkleError::InvalidEncoding)
    }
}

/// The canonical hex text of an element: 64 lower-case digits.
pub fn encode(x: &FieldElement) -> (r: Vec<u8>)
    requires
        x.wf(),
    ensures
        r@ == hex_text(x.bytes@),
        r@ == canonical_hex(x@),
        r@.len() == 64,
        is_hex_text(r@),
        decoded_value(r@) == x@,
{
    proof {
        lemma_hex_text_shape(x.bytes@);
        lemma_hex_value_of_text(x.bytes@);
        lemma_be_value_nonneg(x.bytes@);
        lemma_small_mod(x@ as nat, field_modulus() as nat);
        lemma_canonical_hex(*x);
    }
    to_hex(&x.bytes)
}

/// The field element for a leaf's bytes: their hex text, decoded.
pub fn leaf_element(leaf: &Vec<u8>) -> (r: FieldElement)
    requires
        leaf@.len() > 0,
    ensures
        r.wf(),
        r@ == leaf_value(leaf@),
{
    let text = to_hex(leaf);
    proof {
        lemma_hex_text_shape(leaf@);
        lemma_hex_value_of_text(leaf@);
    }
    field_from_hex(&text)
}

pub proof fn lemma_be_value_nonneg(s: Seq<u8>)
    ensures
        be_value(s) >= 0,
    decreases s.len(),
{
    if s.len() > 0 {
        lemma_be_value_nonneg(s.drop_last());
    }
}

/// Hex text has two digits per byte, all of them hex digits.
pub proof fn lemma_hex_text_shape(s: Seq<u8>)
    ensures
        hex_text(s).len() == 2 * s.len(),
        forall|i: int| 0 <= i < hex_text(s).len() ==> is_hex_char(#[trigger] hex_text(s)[i]),
    decreases s.len(),
{
    if s.len() > 0 {
        lemma_hex_text_shape(s.drop_last());
        let t = hex_text(s.drop_last());
        let u = seq![hex_digit(s.last() as int / 16), hex_digit(s.last() as int % 16)];
        assert forall|i: int| 0 <= i < hex_text(s).len() implies is_hex_char(#[trigger] hex_text(s)[i]) by {
            if i < t.len() {
                assert(hex_text(s)[i] == t[i]);
            } else {
                assert(hex_text(s)[i] == u[i - t.len()]);
            }
        }
    }
}

/// Reading hex text back gives the number of the bytes it was made from.
pub proof fn lemma_hex_value_of_text(s: Seq<u8>)
    ensures
        hex_value(hex_text(s)) == be_value(s),
    decreases s.len(),
{
    if s.len() > 0 {
        lemma_hex_value_of_text(s.drop_last());
        let t = hex_text(s.drop_last());
        let a = hex_digit(s.last() as int / 16);
        let b = hex_digit(s.last() as int % 16);
        let w = hex_text(s);
        assert(w == t + seq![a, b]);
        assert(w.drop_last() =~= t.push(a));
        assert(t.push(a).drop_last() =~= t);
        assert(hex_value(t.push(a)) == hex_value(t) * 16 + hex_char_value(a));
        assert(hex_value(w) == hex_value(t.push(a)) * 16 + hex_char_value(b));
    }
}

/// Two byte strings of one length that denote one number are equal.
pub proof fn lemma_be_value_injective(a: Seq<u8>, b: Seq<u8>)
    requires
        a.len() == b.len(),
        be_value(a) == be_value(b),
    ensures
        a == b,
    decreases a.len(),
{
    if a.len() > 0 {
        lemma_be_value_nonneg(a.drop_last());
        lemma_be_value_nonneg(b.drop_last());
        lemma_be_value_injective(a.drop_last(), b.drop_last());
        assert(a =~= a.drop_last().push(a.last()));
        assert(b =~= b.drop_last().push(b.last()));
    }
}

/// A canonical element's hex text is the canonical text of its value.
pub proof fn lemma_canonical_hex(x: FieldElement)
    requires
        x.wf(),
    ensures
        hex_text(x.bytes@) == canonical_hex(x@),
{
    let b = choose|b: Seq<u8>| b.len() == 32 && be_value(b) == x@;
    assert(x.bytes@.len() == 32 && be_value(x.bytes@) == x@);
    lemma_be_value_injective(b, x.bytes@);
}

/// Decoding is canonical: for any hex text `b`, the encoding of its decoded
/// element decodes to that same element, byte for byte, and the encoding of
/// an element depends on its value alone.
pub proof fn lemma_codec_round_trip(b: Seq<u8>, x: FieldElement, y: FieldElement)
    requires
        is_hex_text(b),
        x.wf(),
        x@ == decoded_value(b),
        y.wf(),
        y@ == decoded_value(hex_text(x.bytes@)),
    ensures
        is_hex_text(hex_text(x.bytes@)),
        y.bytes@ == x.bytes@,
        hex_text(y.bytes@) == hex_text(x.bytes@),
{
    lemma_hex_text_shape(x.bytes@);
    lemma_hex_value_of_text(x.bytes@);
    lemma_be_value_nonneg(x.bytes@);
    lemma_small_mod(x@ as nat, field_modulus() as nat);
    lemma_be_value_injective(x.bytes@, y.bytes@);
}

} // verus!
