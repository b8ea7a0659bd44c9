use sparse_merkle_tree::digest::{zero_digest, Digest};
use sparse_merkle_tree::hashing::{hash_branch, hash_key, hash_kv, root_from_path};
use sparse_merkle_tree::tree::{SparseMerkleTree, SparseMerkleTreeProof};
use std::collections::HashMap;
use InsertGetRemoveOp::{Get, Insert, Remove};

enum InsertGetRemoveOp {
    Insert(String, String),
    Get(String),
    Remove(String),
}

fn digest_from_hex(s: &str) -> Digest {
    let mut bytes = [0u8; 32];
    for i in 0..32 {
        bytes[i] = u8::from_str_radix(&s[2 * i..2 * i + 2], 16).unwrap();
    }
    Digest::from_bytes(bytes)
}

fn hash_smt_insert_get_remove(ops: Vec<InsertGetRemoveOp>) {
    let mut hmap = HashMap::new();
    let mut smt = SparseMerkleTree::new();

    for op in ops {
        match op {
            InsertGetRemoveOp::Insert(k, v) => {
                hmap.insert(k.clone(), v.clone());
                smt = smt.insert(k, v);
            }
            InsertGetRemoveOp::Get(k) => {
                let (val, proof) = smt.get(k.clone());
                SparseMerkleTree::check_proof(k.clone(), val.clone(), &proof, &smt.commit())
                    .unwrap();
                assert_eq!(hmap.get(&k), val.as_ref());
            }
            InsertGetRemoveOp::Remove(k) => {
                hmap.remove(&k);
                smt = smt.remove(k.clone());
            }
        }
    }
}

#[test]
fn hash_smt_insert_get_test_cases() {
    let test_cases = [
        (
            "query non existing key on empty tree",
            vec![Get("22".to_string())],
        ),
        (
            "query non existing key on non-empty tree",
            vec![
                Insert("22".to_string(), "".to_string()),
                Get("23".to_string()),
            ],
        ),
        (
            "query existing key",
            vec![
                Insert("22".to_string(), "".to_string()),
                Get("22".to_string()),
            ],
        ),
        (
            "insert duplicate key with same value",
            vec![
                Insert("22".to_string(), "".to_string()),
                Insert("22".to_string(), "".to_string()),
                Get("22".to_string()),
            ],
        ),
        (
            "insert duplicate key with different value",
            vec![
                Insert("0".to_string(), "".to_string()),
                Insert("0".to_string(), "\0".to_string()),
                Get("0".to_string()),
            ],
        ),
        (
            "insert multiple keys and values",
            vec![
                Insert("80".to_string(), "".to_string()),
                Insert("9".to_string(), "".to_string()),
                Insert("9".to_string(), "".to_string()),
                Insert("9".to_string(), "".to_string()),
                Insert("80".to_string(), "\u{0}".to_string()),
                Insert("0".to_string(), "".to_string()),
                Get("80".to_string()),
                Get("9".to_string()),
                Get("0".to_string()),
            ],
        ),
        ("remove non existing key", vec![Remove("22".to_string())]),
        (
            "remove existing key",
            vec![
                Insert("80".to_string(), "".to_string()),
                Insert("92".to_string(), "".to_string()),
                Insert("94".to_string(), "".to_string()),
                Insert("5".to_string(), "".to_string()),
                Insert("6".to_string(), "\u{0}".to_string()),
                Remove("92".to_string()),
                Get("92".to_string()),
                Get("94".to_string()),
                Remove("5".to_string()),
                Get("6".to_string()),
            ],
        ),
    ];

    for (_, ops) in test_cases {
        hash_smt_insert_get_remove(ops)
    }
}

#[test]
fn hash_key_exact_digest() {
    let expected = digest_from_hex("df97adb5b3570a10dde7c56c1ffac277bf5df3d25fd2f7228cea503c743b4f63");
    assert_eq!(hash_key("22"), expected);
}

#[test]
fn hash_kv_exact_digest() {
    let expected = digest_from_hex("d804b2cef06baf33aee95a82c6bbecdceb3a7ad093887e0cfc9cfe90e2c606c8");
    assert_eq!(hash_kv("22", ""), expected);
}

#[test]
fn hash_branch_exact_digest() {
    let expected = digest_from_hex("c8442399511738c45c52fc5a2786921846b4bdb3dbe5ab81f1c9e153dbd98810");
    assert_eq!(hash_branch(zero_digest(), zero_digest()), expected);
}

#[test]
fn hash_branch_is_order_sensitive() {
    let a = hash_key("a");
    let b = hash_key("b");
    assert_ne!(hash_branch(a, b), hash_branch(b, a));
}

#[test]
fn hash_tags_separate_domains() {
    assert_ne!(hash_key("22"), hash_kv("22", ""));
    assert_ne!(hash_kv("a", "b"), hash_kv("ab", ""));
}

#[test]
fn digest_bits_most_significant_first() {
    let mut bytes = [0u8; 32];
    bytes[0] = 0x80;
    bytes[31] = 0x01;
    let d = Digest::from_bytes(bytes);
    assert!(d.bit(0));
    assert!(!d.bit(1));
    assert!(!d.bit(254));
    assert!(d.bit(255));
    assert!(zero_digest().is_zero());
    assert!(!d.is_zero());
}

#[test]
fn root_from_empty_path_is_leaf_digest() {
    assert_eq!(root_from_path(&[], "22", ""), hash_kv("22", ""));
}

#[test]
fn single_key_commitment_exact() {
    let t = SparseMerkleTree::new().insert("22".to_string(), "".to_string());
    let expected = digest_from_hex("5d9c4602f861f806644b9b1426f7d404f9a8884a5ae5fb0b2b86c60fbbaac490");
    assert_eq!(t.commit(), expected);
}

#[test]
fn empty_tree_get_absent() {
    let t = SparseMerkleTree::new();
    assert_eq!(t.commit(), zero_digest());
    let (val, proof) = t.get("22".to_string());
    assert_eq!(val, None);
    assert!(matches!(proof, SparseMerkleTreeProof::NotPresent));
    assert_eq!(
        SparseMerkleTree::check_proof("22".to_string(), None, &proof, &t.commit()),
        Some(())
    );
}

#[test]
fn inserted_key_has_verifying_proof() {
    let t = SparseMerkleTree::new().insert("22".to_string(), "".to_string());
    let (val, proof) = t.get("22".to_string());
    assert_eq!(val, Some("".to_string()));
    match &proof {
        SparseMerkleTreeProof::Present { siblings } => assert_eq!(siblings.len(), 256),
        SparseMerkleTreeProof::NotPresent => panic!("expected a membership proof"),
    }
    assert_eq!(
        SparseMerkleTree::check_proof("22".to_string(), val, &proof, &t.commit()),
        Some(())
    );
}

#[test]
fn insert_twice_keeps_commitment() {
    let t1 = SparseMerkleTree::new().insert("22".to_string(), "".to_string());
    let c1 = t1.commit();
    let t2 = t1.insert("22".to_string(), "".to_string());
    assert_eq!(t2.commit(), c1);
}

#[test]
fn overwrite_value_changes_commitment() {
    let t1 = SparseMerkleTree::new().insert("0".to_string(), "".to_string());
    let old_comm = t1.commit();
    let t2 = t1.insert("0".to_string(), "\u{0}".to_string());
    let (val, proof) = t2.get("0".to_string());
    assert_eq!(val, Some("\u{0}".to_string()));
    assert_eq!(
        SparseMerkleTree::check_proof("0".to_string(), val.clone(), &proof, &t2.commit()),
        Some(())
    );
    assert_eq!(
        SparseMerkleTree::check_proof("0".to_string(), val, &proof, &old_comm),
        None
    );
}

#[test]
fn removed_key_absent_others_verify() {
    let mut t = SparseMerkleTree::new();
    for k in ["80", "92", "94", "5"] {
        t = t.insert(k.to_string(), "v".to_string());
    }
    t = t.remove("92".to_string());
    let (val, proof) = t.get("92".to_string());
    assert_eq!(val, None);
    assert!(matches!(proof, SparseMerkleTreeProof::NotPresent));
    for k in ["80", "94", "5"] {
        let (val, proof) = t.get(k.to_string());
        assert_eq!(val, Some("v".to_string()));
        assert_eq!(
            SparseMerkleTree::check_proof(k.to_string(), val, &proof, &t.commit()),
            Some(())
        );
    }
}

#[test]
fn proof_checks_without_the_tree() {
    let (proof, comm) = {
        let t = SparseMerkleTree::new()
            .insert("a".to_string(), "1".to_string())
            .insert("b".to_string(), "2".to_string());
        let (_, proof) = t.get("b".to_string());
        (proof, t.commit())
    };
    assert_eq!(
        SparseMerkleTree::check_proof("b".to_string(), Some("2".to_string()), &proof, &comm),
        Some(())
    );
}

#[test]
fn insert_remove_restores_empty_commitment() {
    let empty = SparseMerkleTree::new();
    let c0 = empty.commit();
    let t = empty.insert("k".to_string(), "v".to_string()).remove("k".to_string());
    assert_eq!(t.commit(), c0);
    assert_eq!(t.get("k".to_string()).0, None);
}

#[test]
fn insert_remove_restores_commitment_with_other_keys() {
    let base = SparseMerkleTree::new()
        .insert("x".to_string(), "1".to_string())
        .insert("y".to_string(), "2".to_string());
    let c0 = base.commit();
    let t = base.insert("k".to_string(), "v".to_string()).remove("k".to_string());
    assert_eq!(t.commit(), c0);
}

#[test]
fn remove_absent_key_is_noop() {
    let t = SparseMerkleTree::new().insert("a".to_string(), "1".to_string());
    let c = t.commit();
    let t = t.remove("zzz".to_string());
    assert_eq!(t.commit(), c);
    assert_eq!(t.get("a".to_string()).0, Some("1".to_string()));
}

#[test]
fn mutated_sibling_fails() {
    let t = SparseMerkleTree::new()
        .insert("a".to_string(), "1".to_string())
        .insert("b".to_string(), "2".to_string());
    let (val, proof) = t.get("a".to_string());
    let siblings = match proof {
        SparseMerkleTreeProof::Present { siblings } => siblings,
        SparseMerkleTreeProof::NotPresent => panic!("expected a membership proof"),
    };
    for i in [0usize, 100, 255] {
        let mut changed = siblings.clone();
        let mut bytes = changed[i].bytes;
        bytes[0] ^= 1;
        changed[i] = Digest::from_bytes(bytes);
        let pf = SparseMerkleTreeProof::Present { siblings: changed };
        assert_eq!(
            SparseMerkleTree::check_proof("a".to_string(), val.clone(), &pf, &t.commit()),
            None
        );
    }
}

#[test]
fn mutated_value_fails() {
    let t = SparseMerkleTree::new().insert("a".to_string(), "1".to_string());
    let (_, proof) = t.get("a".to_string());
    assert_eq!(
        SparseMerkleTree::check_proof("a".to_string(), Some("2".to_string()), &proof, &t.commit()),
        None
    );
}

#[test]
fn mismatched_shapes_rejected() {
    let t = SparseMerkleTree::new().insert("a".to_string(), "1".to_string());
    let (_, proof) = t.get("a".to_string());
    assert_eq!(
        SparseMerkleTree::check_proof("a".to_string(), None, &proof, &t.commit()),
        None
    );
    assert_eq!(
        SparseMerkleTree::check_proof(
            "a".to_string(),
            Some("1".to_string()),
            &SparseMerkleTreeProof::NotPresent,
            &t.commit()
        ),
        None
    );
}

#[test]
fn short_proof_rejected() {
    let t = SparseMerkleTree::new().insert("a".to_string(), "1".to_string());
    let (val, proof) = t.get("a".to_string());
    let mut siblings = match proof {
        SparseMerkleTreeProof::Present { siblings } => siblings,
        SparseMerkleTreeProof::NotPresent => panic!("expected a membership proof"),
    };
    siblings.pop();
    let pf = SparseMerkleTreeProof::Present { siblings };
    assert_eq!(
        SparseMerkleTree::check_proof("a".to_string(), val, &pf, &t.commit()),
        None
    );
}

#[test]
fn model_matches_reference_map() {
    let mut ops = Vec::new();
    for i in 0..40u32 {
        let k = format!("{}", i % 7);
        match i % 3 {
            0 => ops.push(Insert(k, format!("{}", i))),
            1 => ops.push(Get(k)),
            _ => ops.push(Remove(format!("{}", (i * 5) % 7))),
        }
        ops.push(Get(format!("{}", (i + 3) % 7)));
    }
    hash_smt_insert_get_remove(ops);
}
