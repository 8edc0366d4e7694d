use sapling_crypto_ce::babyjubjub::JubjubBn256;
use sapling_crypto_ce::baby_pedersen_hash::{pedersen_hash, Personalization};
use sapling_crypto_ce::bellman::pairing::bn256::{Bn256, Fr, FrRepr};
use sapling_crypto_ce::bellman::pairing::ff::{BitIterator, PrimeField, PrimeFieldRepr};
use crate::field::FieldElement;
use vstd::prelude::*;

verus! {

/// Level domains that the Pedersen personalization can carry: a level tag
/// is six bits wide, and the hash refuses a tag of this value or more.
pub const LEVEL_DOMAINS: usize = 62;

/// The x-coordinate of the Pedersen hash over Baby Jubjub of two elements'
/// bits, personalized with a Merkle level.
pub uninterp spec fn pedersen_of(left: int, right: int, level: nat) -> int;

/// The value standing for a subtree of height `k` that holds no leaf.
pub open spec fn default_value(k: nat) -> int
    decreases k,
{
    if k == 0 {
        0
    } else {
        pedersen_of(default_value((k - 1) as nat), default_value((k - 1) as nat), k)
    }
}

#[verifier::external_type_specification]
#[verifier::external_body]
pub struct ExJubjubBn256(JubjubBn256);

/// sapling_crypto's `JubjubBn256::new`: the fixed Baby Jubjub curve
/// parameters with the Pedersen generators and their tables.
pub assume_specification[ JubjubBn256::new ]() -> JubjubBn256;

/// Each empty-subtree value above the leaves is the hash, tagged with its
/// height, of two copies of the value one height below.
pub proof fn lemma_default_value_step(k: nat)
    requires
        k > 0,
    ensures
        default_value(k) == pedersen_of(default_value((k - 1) as nat), default_value((k - 1) as nat), k),
{
}

/// Relies on sapling_crypto's `baby_pedersen_hash::pedersen_hash` with the
/// `MerkleTree(level)` personalization over the two elements' little-endian
/// bits, each cut to the field's bit length, and on `into_xy` of the point;
/// the personalization panics on a level of 62 or more. `params` can only
/// come from `JubjubBn256::new`, which builds the same tables every time.
#[verifier::external_body]
pub(crate) fn hash_pair(params: &JubjubBn256, left: &FieldElement, right: &FieldElement, level: usize) -> (r: FieldElement)
    requires
        left.wf(),
        right.wf(),
        level < LEVEL_DOMAINS,
    ensures
        r.wf(),
        r@ == pedersen_of(left@, right@, level as nat),
{
    let bits = |x: &FieldElement| {
        let mut repr = FrRepr::default();
        repr.read_be(&x.bytes[..]).unwrap();
        let mut b: Vec<bool> = BitIterator::new(repr).collect();
        b.reverse();
        b.truncate(Fr::NUM_BITS as usize);
        b
    };
    let mut input = bits(left);
    input.extend(bits(right));
    let p = pedersen_hash::<Bn256, _>(Personalization::MerkleTree(level), input, params);
    let mut bytes: Vec<u8> = Vec::new();
    p.into_xy().0.into_repr().write_be(&mut bytes).unwrap();
    FieldElement { bytes }
}

/// The empty-subtree values of heights `0..=depth`, each hashed once from the
/// one below it.
pub fn default_values(params: &JubjubBn256, depth: usize) -> (r: Vec<FieldElement>)
    requires
        depth < LEVEL_DOMAINS,
    ensures
        r@.len() == depth + 1,
        forall|k: int| 0 <= k <= depth ==> (#[trigger] r@[k]).wf() && r@[k]@ == default_value(k as nat),
{
    let mut r: Vec<FieldElement> = Vec::new();
    r.push(FieldElement::zero());
    let mut k: usize = 1;
    while k <= depth
        invariant
            1 <= k <= depth + 1,
            depth < LEVEL_DOMAINS,
            r@.len() == k,
            forall|j: int| 0 <= j < k ==> (#[trigger] r@[j]).wf() && r@[j]@ == default_value(j as nat),
        decreases depth + 1 - k,
    {
        let below = &r[k - 1];
        let next = hash_pair(params, below, below, k);
        r.push(next);
        k = k + 1;
    }
    r
}

} // verus!
