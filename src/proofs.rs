use sapling_crypto_ce::bellman::groth16::{Parameters, Proof, prepare_verifying_key, verify_proof};
use sapling_crypto_ce::bellman::pairing::bn256::{Bn256, Fr, FrRepr};
use sapling_crypto_ce::bellman::pairing::ff::{PrimeField, PrimeFieldRepr};
use crate::error::MerkleError;
use crate::field::{FieldElement, canonical_hex, decode, decoded_value, encode, is_hex_text, lemma_be_value_injective};
use crate::tree::Module;
use vstd::prelude::*;

verus! {

/// The outcome of Groth16 verification over BN256 of a hex-encoded proof
/// against hex-encoded proving parameters, with the public inputs
/// `[nullifier, root]` in that order.
pub uninterp spec fn groth16_verdict(params_hex: Seq<u8>, proof_hex: Seq<u8>, nullifier: int, root: int) -> Result<bool, MerkleError>;

/// Relies on bellman's groth16: `Parameters::read` (points checked) of the
/// hex-decoded parameters, `prepare_verifying_key` of their key,
/// `Proof::read` of the hex-decoded proof, and `verify_proof` with the
/// inputs `[nullifier, root]`; hex decoding is `hex::decode`. A refused
/// key, or a key made for another number of inputs, is reported as
/// malformed parameters, a refused proof as a malformed proof.
#[verifier::external_body]
fn groth16_check(params_hex: &Vec<u8>, proof_hex: &Vec<u8>, nullifier: &FieldElement, root: &FieldElement) -> (r: Result<bool, MerkleError>)
    requires
        nullifier.wf(),
        root.wf(),
    ensures
        r == groth16_verdict(params_hex@, proof_hex@, nullifier@, root@),
{
    let fr = |x: &FieldElement| { let mut p = FrRepr::default(); p.read_be(&x.bytes[..]).unwrap(); Fr::from_repr(p).unwrap() };
    let raw = hex::decode(params_hex).map_err(|_| MerkleError::MalformedParameters)?;
    let params = Parameters::<Bn256>::read(&raw[..], true).map_err(|_| MerkleError::MalformedParameters)?;
    let pvk = prepare_verifying_key(&params.vk);
    let raw = hex::decode(proof_hex).map_err(|_| MerkleError::MalformedProof)?;
    let proof = Proof::<Bn256>::read(&raw[..]).map_err(|_| MerkleError::MalformedProof)?;
    verify_proof(&pvk, &proof, &[fr(nullifier), fr(root)]).map_err(|_| MerkleError::MalformedParameters)
}

/// Whether two byte strings are equal.
fn same_bytes(a: &Vec<u8>, b: &Vec<u8>) -> (r: bool)
    ensures
        r == (a@ == b@),
{
    if a.len() != b.len() {
        return false;
    }
    let mut i: usize = 0;
    while i < a.len()
        invariant
            a@.len() == b@.len(),
            i <= a@.len(),
            forall|j: int| 0 <= j < i ==> a@[j] == b@[j],
        decreases a@.len() - i,
    {
        if a[i] != b[i] {
            return false;
        }
        i = i + 1;
    }
    assert(a@ =~= b@);
    true
}

/// What a verification request returns, given the verdict of the proof
/// system on its inputs.
pub open spec fn verify_outcome(m: Module, tree_id: u32, params_hex: Seq<u8>, proof_hex: Seq<u8>, nullifier_hex: Seq<u8>, root_hex: Seq<u8>) -> Result<bool, MerkleError> {
    if tree_id >= m.trees@.len() {
        Err(MerkleError::UnknownTree)
    } else if !is_hex_text(nullifier_hex) {
        Err(MerkleError::InvalidPublicInput)
    } else if m.nullifier_set().contains(canonical_hex(decoded_value(nullifier_hex))) {
        Err(MerkleError::NullifierAlreadySpent)
    } else if !is_hex_text(root_hex) || decoded_value(root_hex) != m.root_of(tree_id as int) {
        Err(MerkleError::InvalidPublicInput)
    } else {
        groth16_verdict(params_hex, proof_hex, decoded_value(nullifier_hex), m.root_of(tree_id as int))
    }
}

impl Module {
    /// Whether `nullifier` (its canonical hex text) is spent.
    pub fn is_used(&self, nullifier: &Vec<u8>) -> (r: bool)
        ensures
            r == self.nullifier_set().contains(nullifier@),
    {
        let mut i: usize = 0;
        while i < self.used_nullifiers.len()
            invariant
                i <= self.used_nullifiers@.len(),
                forall|j: int| 0 <= j < i ==> self.used_nullifiers@[j]@ != nullifier@,
            decreases self.used_nullifiers@.len() - i,
        {
            if same_bytes(&self.used_nullifiers[i], nullifier) {
                assert(self.used_nullifiers@.map_values(|v: Vec<u8>| v@)[i as int] == nullifier@);
                return true;
            }
            i = i + 1;
        }
        assert(!self.nullifier_set().contains(nullifier@)) by {
            let keys = self.used_nullifiers@.map_values(|v: Vec<u8>| v@);
            if keys.contains(nullifier@) {
                let k = choose|k: int| 0 <= k < keys.len() && #[trigger] keys[k] == nullifier@;
                assert(self.used_nullifiers@[k]@ == nullifier@);
            }
        }
        false
    }

    /// Marks `nullifier` spent; marking it again changes nothing.
    pub fn mark_used(&mut self, nullifier: Vec<u8>)
        requires
            old(self).wf(),
        ensures
            final(self).wf(),
            final(self).trees == old(self).trees,
            final(self).nullifier_set() == old(self).nullifier_set().insert(nullifier@),
    {
        if !self.is_used(&nullifier) {
            let ghost before = self.used_nullifiers@;
            let ghost key = nullifier@;
            self.used_nullifiers.push(nullifier);
            let ghost ks_old = before.map_values(|v: Vec<u8>| v@);
            let ghost ks_new = self.used_nullifiers@.map_values(|v: Vec<u8>| v@);
            assert(ks_new =~= ks_old.push(key));
            assert forall|x: Seq<u8>| ks_new.contains(x) <==> (ks_old.contains(x) || x == key) by {
                if ks_new.contains(x) {
                    let k = choose|k: int| 0 <= k < ks_new.len() && #[trigger] ks_new[k] == x;
                    if k < ks_old.len() {
                        assert(ks_old[k] == x);
                    }
                }
                if ks_old.contains(x) {
                    let k = choose|k: int| 0 <= k < ks_old.len() && #[trigger] ks_old[k] == x;
                    assert(ks_new[k] == x);
                }
                if x == key {
                    assert(ks_new[ks_old.len() as int] == x);
                }
            }
            assert(self.nullifier_set() =~= old(self).nullifier_set().insert(key));
        } else {
            assert(self.nullifier_set() =~= old(self).nullifier_set().insert(nullifier@));
        }
    }

    /// Applies the proof system's verdict on a request whose nullifier is
    /// `nullifier`: an accepted proof spends the nullifier, a rejected one
    /// and an error change nothing.
    pub fn record_verdict(&mut self, nullifier: &FieldElement, verdict: Result<bool, MerkleError>) -> (r: Result<bool, MerkleError>)
        requires
            old(self).wf(),
            nullifier.wf(),
        ensures
            final(self).wf(),
            r == verdict,
            final(self).trees == old(self).trees,
            verdict == Ok::<bool, MerkleError>(true) ==> final(self).nullifier_set() == old(self).nullifier_set().insert(canonical_hex(nullifier@)),
            verdict != Ok::<bool, MerkleError>(true) ==> *final(self) == *old(self),
    {
        match verdict {
            Ok(true) => {
                self.mark_used(encode(nullifier));
                Ok(true)
            },
            _ => verdict,
        }
    }

    /// Checks a membership proof against tree `tree_id`'s current root and
    /// spends its nullifier when the proof is accepted. The root given by
    /// the caller must decode to that current root; a nullifier is spent at
    /// most once, whatever the proof presented with it again.
    pub fn verify_zkproof(&mut self, tree_id: u32, params_hex: &Vec<u8>, proof_hex: &Vec<u8>, nullifier_hex: &Vec<u8>, root_hex: &Vec<u8>) -> (r: Result<bool, MerkleError>)
        requires
            old(self).wf(),
        ensures
            final(self).wf(),
            r == verify_outcome(*old(self), tree_id, params_hex@, proof_hex@, nullifier_hex@, root_hex@),
            final(self).trees == old(self).trees,
            r == Ok::<bool, MerkleError>(true) ==> final(self).nullifier_set() == old(self).nullifier_set().insert(canonical_hex(decoded_value(nullifier_hex@))),
            r != Ok::<bool, MerkleError>(true) ==> *final(self) == *old(self),
    {
        if tree_id as usize >= self.trees.len() {
            return Err(MerkleError::UnknownTree);
        }
        let nullifier = match decode(nullifier_hex) {
            Ok(n) => n,
            Err(_) => return Err(MerkleError::InvalidPublicInput),
        };
        if self.is_used(&encode(&nullifier)) {
            return Err(MerkleError::NullifierAlreadySpent);
        }
        let root = self.root_element(tree_id as usize);
        match decode(root_hex) {
            Ok(given) => {
                if !same_bytes(&given.bytes, &root.bytes) {
                    proof {
                        if given@ == root@ {
                            lemma_be_value_injective(given.bytes@, root.bytes@);
                        }
                    }
                    return Err(MerkleError::InvalidPublicInput);
                }
            },
            Err(_) => return Err(MerkleError::InvalidPublicInput),
        }
        let verdict = groth16_check(params_hex, proof_hex, &nullifier, &root);
        self.record_verdict(&nullifier, verdict)
    }
}

/// A spent nullifier stays spent: once a request with nullifier text `n`
/// has been accepted, every later request whose nullifier text decodes to
/// the same element is refused as already spent, whatever proof comes with it.
pub proof fn lemma_nullifier_spent_once(before: Module, after: Module, n: Seq<u8>, later: Seq<u8>, tree_id: u32, params_hex: Seq<u8>, proof_hex: Seq<u8>, root_hex: Seq<u8>)
    requires
        is_hex_text(n),
        after.nullifier_set() == before.nullifier_set().insert(canonical_hex(decoded_value(n))),
        tree_id < after.trees@.len(),
        is_hex_text(later),
        decoded_value(later) == decoded_value(n),
    ensures
        after.nullifier_set().contains(canonical_hex(decoded_value(n))),
        verify_outcome(after, tree_id, params_hex, proof_hex, later, root_hex) == Err::<bool, MerkleError>(MerkleError::NullifierAlreadySpent),
{
}

} // verus!
