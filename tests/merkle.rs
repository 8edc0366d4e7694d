use edge_merkletree::error::MerkleError;
use edge_merkletree::field::{decode, encode, leaf_element, FieldElement};
use edge_merkletree::tree::{Module, MTree};

const MODULUS_HEX: &str = "30644e72e131a029b85045b68181585d2833e84879b9709143e1f593f0000001";

fn element(hex: &str) -> FieldElement {
    decode(&hex.as_bytes().to_vec()).unwrap()
}

fn leaves(items: &[&str]) -> Vec<Vec<u8>> {
    items.iter().map(|s| s.as_bytes().to_vec()).collect()
}

fn root(m: &Module, id: u32) -> Vec<u8> {
    m.current_root(id).unwrap()
}

#[test]
fn decode_reads_hex_and_encode_is_canonical() {
    let x = element("FF");
    let mut expected = vec![0u8; 32];
    expected[31] = 0xff;
    assert_eq!(x.bytes, expected);
    let text = encode(&x);
    assert_eq!(text.len(), 64);
    assert_eq!(String::from_utf8(text.clone()).unwrap(), format!("{}ff", "0".repeat(62)));
    assert_eq!(decode(&text).unwrap(), x);
}

#[test]
fn decode_round_trip_keeps_element() {
    for hex in ["1", "00ab", "deadBEEF", MODULUS_HEX, "ffffffffffffffffffffffffffffffffffffffffffffffffffffffffffffffff"] {
        let x = element(hex);
        let again = decode(&encode(&x)).unwrap();
        assert_eq!(again, x);
        assert_eq!(encode(&again), encode(&x));
    }
}

#[test]
fn decode_reduces_into_the_field() {
    assert_eq!(element(MODULUS_HEX), FieldElement::zero());
    let above = "30644e72e131a029b85045b68181585d2833e84879b9709143e1f593f0000003";
    let mut two = vec![0u8; 32];
    two[31] = 2;
    assert_eq!(element(above).bytes, two);
}

#[test]
fn decode_refuses_non_hex() {
    assert_eq!(decode(&b"".to_vec()), Err(MerkleError::InvalidEncoding));
    assert_eq!(decode(&b"12g4".to_vec()), Err(MerkleError::InvalidEncoding));
    assert_eq!(decode(&b"-12".to_vec()), Err(MerkleError::InvalidEncoding));
    assert_eq!(decode(&b"1_2".to_vec()), Err(MerkleError::InvalidEncoding));
}

#[test]
fn leaf_element_reads_bytes_big_endian() {
    let mut expected = vec![0u8; 32];
    expected[31] = 0x61;
    assert_eq!(leaf_element(&b"a".to_vec()).bytes, expected);
    expected[30] = 0x61;
    expected[31] = 0x62;
    assert_eq!(leaf_element(&b"ab".to_vec()).bytes, expected);
}

#[test]
fn precomputes_are_deterministic_and_distinct() {
    assert_eq!(Module::get_precomputes(0), FieldElement::zero());
    let one = Module::get_precomputes(1);
    assert_eq!(one, Module::get_precomputes(1));
    assert_ne!(one, FieldElement::zero());
    let two = Module::get_precomputes(2);
    assert_ne!(two, one);
    assert_eq!(two.bytes.len(), 32);
}

#[test]
fn unique_leaf_fills_empty_slots_with_defaults() {
    assert_eq!(Module::get_unique_leaf(b"a".to_vec(), 1), b"a".to_vec());
    assert_eq!(Module::get_unique_leaf(Vec::new(), 0), encode(&FieldElement::zero()));
    assert_eq!(Module::get_unique_leaf(Vec::new(), 1), encode(&Module::get_precomputes(1)));
}

#[test]
fn empty_tree_root_is_default_of_depth() {
    let mut m = Module::new();
    let id = m.create_tree(Some(5), Some(2), None).unwrap();
    assert_eq!(id, 0);
    assert_eq!(root(&m, id), encode(&Module::get_precomputes(2)));
    assert_eq!(m.merkle_tree_metadata(id), Some(MTree { fee: 5, depth: 2, leaf_count: 0 }));
}

#[test]
fn depth_zero_tree_holds_one_leaf() {
    let mut m = Module::new();
    let id = m.create_tree(None, Some(0), None).unwrap();
    assert_eq!(root(&m, id), encode(&FieldElement::zero()));
    m.add_leaf(id, b"a".to_vec()).unwrap();
    assert_eq!(root(&m, id), encode(&leaf_element(&b"a".to_vec())));
    assert_eq!(m.add_leaf(id, b"b".to_vec()), Err(MerkleError::TreeFull));
}

#[test]
fn capacity_is_two_to_the_depth() {
    let mut m = Module::new();
    let id = m.create_tree(None, Some(1), None).unwrap();
    assert_eq!(m.add_leaf(id, b"a".to_vec()), Ok(()));
    assert_eq!(m.add_leaf(id, b"b".to_vec()), Ok(()));
    let full = root(&m, id);
    assert_eq!(m.add_leaf(id, b"c".to_vec()), Err(MerkleError::TreeFull));
    assert_eq!(root(&m, id), full);
    assert_eq!(m.merkle_tree_metadata(id).unwrap().leaf_count, 2);
}

#[test]
fn incremental_root_matches_bulk_root() {
    let mut m = Module::new();
    let id = m.create_tree(None, Some(2), None).unwrap();
    let ls = leaves(&["a", "b", "c"]);
    for (i, leaf) in ls.iter().enumerate() {
        m.add_leaf(id, leaf.clone()).unwrap();
        let bulk = Module::compute_new_root(&ls[..=i].to_vec(), 2);
        assert_eq!(root(&m, id), encode(&bulk));
    }
    let other = m.create_tree(None, Some(2), Some(ls.clone())).unwrap();
    assert_eq!(other, 1);
    assert_eq!(root(&m, other), root(&m, id));
}

#[test]
fn single_leaf_root_hashes_up_with_defaults() {
    let mut m = Module::new();
    let id = m.create_tree(None, Some(1), Some(leaves(&["a"]))).unwrap();
    let r = root(&m, id);
    assert_ne!(r, encode(&leaf_element(&b"a".to_vec())));
    assert_ne!(r, encode(&Module::get_precomputes(1)));
    assert_eq!(r, encode(&Module::compute_new_root(&leaves(&["a"]), 1)));
}

#[test]
fn end_to_end_depth_two() {
    let mut m = Module::new();
    let id = m.create_tree(Some(0), Some(2), None).unwrap();
    let empty = root(&m, id);
    let mut seen = vec![empty.clone()];
    for leaf in ["a", "b"] {
        m.add_leaf(id, leaf.as_bytes().to_vec()).unwrap();
        let r = root(&m, id);
        assert!(!seen.contains(&r));
        seen.push(r);
    }
    assert_ne!(root(&m, id), encode(&Module::get_precomputes(2)));
    for leaf in ["c", "d"] {
        m.add_leaf(id, leaf.as_bytes().to_vec()).unwrap();
        let r = root(&m, id);
        assert!(!seen.contains(&r));
        seen.push(r);
    }
    assert_eq!(m.add_leaf(id, b"e".to_vec()), Err(MerkleError::TreeFull));
    assert_eq!(m.merkle_tree_metadata(id).unwrap().leaf_count, 4);
}

#[test]
fn create_tree_refusals() {
    let mut m = Module::new();
    assert_eq!(m.create_tree(None, Some(256), None), Err(MerkleError::DepthTooLarge));
    assert_eq!(m.create_tree(None, Some(62), None), Err(MerkleError::DepthTooLarge));
    assert_eq!(m.create_tree(None, Some(2), Some(leaves(&["a", "b", "c", "d", "e"]))), Err(MerkleError::TreeFull));
    assert_eq!(m.create_tree(None, Some(2), Some(vec![b"a".to_vec(), Vec::new()])), Err(MerkleError::InvalidEncoding));
    assert_eq!(m.merkle_tree_metadata(0), None);
    assert_eq!(m.create_tree(None, None, None), Ok(0));
    assert_eq!(m.merkle_tree_metadata(0), Some(MTree { fee: 0, depth: 32, leaf_count: 0 }));
}

#[test]
fn add_leaf_refusals() {
    let mut m = Module::new();
    assert_eq!(m.add_leaf(0, b"a".to_vec()), Err(MerkleError::UnknownTree));
    assert_eq!(m.current_root(0), Err(MerkleError::UnknownTree));
    let id = m.create_tree(None, Some(1), None).unwrap();
    assert_eq!(m.add_leaf(id, Vec::new()), Err(MerkleError::InvalidEncoding));
    assert_eq!(m.merkle_tree_metadata(id).unwrap().leaf_count, 0);
}
