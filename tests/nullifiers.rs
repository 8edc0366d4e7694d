use edge_merkletree::error::MerkleError;
use edge_merkletree::field::{decode, encode};
use edge_merkletree::tree::Module;

fn store_with_tree() -> (Module, u32, Vec<u8>) {
    let mut m = Module::new();
    let id = m.create_tree(None, Some(1), Some(vec![b"a".to_vec()])).unwrap();
    let r = m.current_root(id).unwrap();
    (m, id, r)
}

#[test]
fn mark_used_is_idempotent() {
    let mut m = Module::new();
    let n = b"0a".to_vec();
    assert!(!m.is_used(&n));
    m.mark_used(n.clone());
    m.mark_used(n.clone());
    assert!(m.is_used(&n));
    assert_eq!(m.used_nullifiers.len(), 1);
    assert!(!m.is_used(&b"0b".to_vec()));
}

#[test]
fn accepted_nullifier_cannot_be_spent_again() {
    let (mut m, id, r) = store_with_tree();
    let n = decode(&b"1234".to_vec()).unwrap();
    assert_eq!(m.record_verdict(&n, Ok(true)), Ok(true));
    assert!(m.is_used(&encode(&n)));
    for text in ["1234", "0000001234"] {
        let got = m.verify_zkproof(id, &b"00".to_vec(), &b"00".to_vec(), &text.as_bytes().to_vec(), &r);
        assert_eq!(got, Err(MerkleError::NullifierAlreadySpent));
    }
}

#[test]
fn rejected_or_failed_verdicts_spend_nothing() {
    let (mut m, _, _) = store_with_tree();
    let n = decode(&b"77".to_vec()).unwrap();
    assert_eq!(m.record_verdict(&n, Ok(false)), Ok(false));
    assert_eq!(m.record_verdict(&n, Err(MerkleError::MalformedProof)), Err(MerkleError::MalformedProof));
    assert!(!m.is_used(&encode(&n)));
}

#[test]
fn verify_refusals() {
    let (mut m, id, r) = store_with_tree();
    let n = b"99".to_vec();
    let p = b"00".to_vec();
    assert_eq!(m.verify_zkproof(7, &p, &p, &n, &r), Err(MerkleError::UnknownTree));
    assert_eq!(m.verify_zkproof(id, &p, &p, &b"x9".to_vec(), &r), Err(MerkleError::InvalidPublicInput));
    assert_eq!(m.verify_zkproof(id, &p, &p, &n, &b"01".to_vec()), Err(MerkleError::InvalidPublicInput));
    assert_eq!(m.verify_zkproof(id, &p, &p, &n, &b"zz".to_vec()), Err(MerkleError::InvalidPublicInput));
    assert_eq!(m.verify_zkproof(id, &b"zz".to_vec(), &p, &n, &r), Err(MerkleError::MalformedParameters));
    assert_eq!(m.verify_zkproof(id, &p, &p, &n, &r), Err(MerkleError::MalformedParameters));
    assert!(!m.is_used(&encode(&decode(&n).unwrap())));
}
