use merkle_tree::hashing::{concatenate_elements, hash_element};
use merkle_tree::MerkleTree;

#[test]
/// The decimal concatenation is exact — and ambiguous by design: the digest
/// pairs (12, 3) and (1, 23) concatenate to the identical string.
fn concatenation_is_decimal() {
    assert_eq!(concatenate_elements(12, 3), "123");
    assert_eq!(concatenate_elements(1, 23), "123");
    assert_eq!(concatenate_elements(0, 0), "00");
    assert_eq!(concatenate_elements(u64::MAX, 7), "184467440737095516157");
}

#[test]
/// The digest function is deterministic: equal inputs hash identically,
/// whether handed over as a literal or as an owned string.
fn hashing_is_deterministic() {
    let owned = String::from("Crypto");
    assert_eq!(hash_element("Crypto"), hash_element(&owned));
    assert_eq!(hash_element(""), hash_element(""));
    assert_ne!(
        concatenate_elements(hash_element("a"), hash_element("b")),
        concatenate_elements(hash_element("b"), hash_element("a"))
    );
}

#[test]
/// A one-element tree is leaf and root at once: one level, width 1, and the
/// empty proof verifies the sole element.
fn one_element_tree_round_trip() {
    let tree = MerkleTree::new(vec!["Crypto"]);
    assert_eq!(tree.level_count(), 1);
    assert_eq!(tree.level(0).len(), 1);
    assert_eq!(tree.element_count(), 1);
    assert!(tree.is_root(hash_element("Crypto")));

    let proof = tree.generate_proof(0).unwrap();
    assert_eq!(proof, Vec::<u64>::new());
    assert!(tree.verify(proof, 0, hash_element("Crypto")));
}

#[test]
/// Padding copies the trailing element hashes cyclically from the end: five
/// elements pad to width eight, and slots 5..8 repeat the hashes of
/// elements 2..5.
fn padding_copies_trailing_hashes() {
    let data = vec!["Crypto", "Merkle", "Rust", "Tree", "Test"];
    let tree = MerkleTree::new(data.clone());
    let leaves = tree.level(0);
    assert_eq!(leaves.len(), 8);
    for i in 0..5 {
        assert_eq!(leaves[i], hash_element(data[i]));
    }
    assert_eq!(leaves[5], hash_element(data[2]));
    assert_eq!(leaves[6], hash_element(data[3]));
    assert_eq!(leaves[7], hash_element(data[4]));
}

#[test]
/// The level count is always one more than the base-two logarithm of the
/// padded width.
fn level_count_follows_padded_width() {
    let names = vec!["a", "b", "c", "d", "e", "f", "g", "h", "i"];
    let expected: Vec<(usize, usize)> = vec![
        (1, 1),
        (2, 2),
        (3, 3),
        (4, 3),
        (5, 4),
        (6, 4),
        (7, 4),
        (8, 4),
        (9, 5),
    ];
    for (n, levels) in expected {
        let tree = MerkleTree::new(names[0..n].to_vec());
        assert_eq!(tree.level_count(), levels);
    }
}

#[test]
/// Round trip: every real element of a freshly built tree verifies against
/// its generated proof, and still does after both kinds of insertion.
fn round_trip_every_index() {
    let data = vec!["Crypto", "Merkle", "Rust", "Tree", "Test"];
    let mut tree = MerkleTree::new(data.clone());
    for i in 0..data.len() {
        let proof = tree.generate_proof(i).unwrap();
        assert!(tree.verify(proof, i, hash_element(data[i])));
    }

    // three replacement insertions consume the padding, the next one doubles
    let added = vec!["Lemma", "Proof", "Sigma", "Tau"];
    for name in &added {
        tree.add_element(name);
    }
    let all = [&data[..], &added[..]].concat();
    assert_eq!(tree.element_count(), 9);
    for i in 0..all.len() {
        let proof = tree.generate_proof(i).unwrap();
        assert!(tree.verify(proof, i, hash_element(all[i])));
    }
}

#[test]
/// Tamper sensitivity: flipping any single hash of a valid proof, using the
/// wrong index, or claiming the wrong leaf digest makes verification fail.
fn tampered_proofs_fail() {
    let data = vec!["Crypto", "Merkle", "Rust", "Tree", "Test"];
    let tree = MerkleTree::new(data.clone());
    let index: usize = 2;
    let leaf = hash_element(data[index]);
    let proof = tree.generate_proof(index).unwrap();
    assert!(tree.verify(proof.clone(), index, leaf));

    for position in 0..proof.len() {
        let mut tampered = proof.clone();
        tampered[position] ^= 1;
        assert!(!tree.verify(tampered, index, leaf));
    }
    assert!(!tree.verify(proof.clone(), 3, leaf));
    assert!(!tree.verify(proof.clone(), index, leaf ^ 1));
    // an index that refers only to padding is never a valid claim
    assert!(!tree.verify(proof, 6, leaf));
}

#[test]
/// Insertion case selection: a full tree of four elements doubles its width
/// and gains a level, while a tree with one padding slot keeps its shape and
/// overwrites that slot.
fn insertion_case_selection() {
    // full: four real elements, width four
    let mut full = MerkleTree::new(vec!["Crypto", "Merkle", "Rust", "Tree"]);
    assert_eq!(full.element_count(), 4);
    assert_eq!(full.level(0).len(), 4);
    let old_root = full.level(2)[0];
    full.add_element("Test");
    assert_eq!(full.element_count(), 5);
    assert_eq!(full.level(0).len(), 8);
    assert_eq!(full.level_count(), 4);
    assert!(!full.is_root(old_root));

    // padded: three real elements, width four, one padding slot
    let mut padded = MerkleTree::new(vec!["Crypto", "Merkle", "Rust"]);
    assert_eq!(padded.element_count(), 3);
    assert_eq!(padded.level(0).len(), 4);
    padded.add_element("Test");
    assert_eq!(padded.element_count(), 4);
    assert_eq!(padded.level(0).len(), 4);
    assert_eq!(padded.level_count(), 3);
    assert_eq!(padded.level(0)[3], hash_element("Test"));
}

#[test]
/// The concrete scenario: the four-name tree has three fully determined
/// levels, and the proof for position 0 is the sibling leaf followed by the
/// right inner node.
fn four_name_scenario() {
    let data = vec!["Crypto", "Merkle", "Rust", "Tree"];
    let tree = MerkleTree::new(data.clone());
    assert_eq!(tree.level_count(), 3);

    let h0 = hash_element(data[0]);
    let h1 = hash_element(data[1]);
    let h2 = hash_element(data[2]);
    let h3 = hash_element(data[3]);
    assert_eq!(tree.level(0), vec![h0, h1, h2, h3]);

    let h01 = hash_element(&concatenate_elements(h0, h1));
    let h23 = hash_element(&concatenate_elements(h2, h3));
    assert_eq!(tree.level(1), vec![h01, h23]);

    let root = hash_element(&concatenate_elements(h01, h23));
    assert_eq!(tree.level(2), vec![root]);

    let proof = tree.generate_proof(0).unwrap();
    assert_eq!(proof, vec![h1, h23]);
    assert!(tree.verify(proof, 0, h0));
}

#[test]
/// Verification is read-only and repeatable: the same arguments give the
/// same answer every time, and the tree is unchanged afterwards.
fn verify_is_idempotent() {
    let data = vec!["Crypto", "Merkle", "Rust"];
    let tree = MerkleTree::new(data.clone());
    let proof = tree.generate_proof(1).unwrap();
    let leaf = hash_element(data[1]);

    let levels_before: Vec<Vec<u64>> = (0..tree.level_count()).map(|i| tree.level(i)).collect();
    let first = tree.verify(proof.clone(), 1, leaf);
    let second = tree.verify(proof.clone(), 1, leaf);
    let third = tree.verify(proof, 1, leaf);
    let levels_after: Vec<Vec<u64>> = (0..tree.level_count()).map(|i| tree.level(i)).collect();

    assert!(first);
    assert_eq!(first, second);
    assert_eq!(second, third);
    assert_eq!(levels_before, levels_after);
    assert_eq!(tree.element_count(), 3);
}

#[test]
/// Proof generation fails with the index error exactly when the index does
/// not refer to a real element — padding positions included.
fn proof_generation_rejects_out_of_range() {
    let data = vec!["Crypto", "Merkle", "Rust"];
    let tree = MerkleTree::new(data);
    assert!(tree.generate_proof(2).is_ok());
    // position 3 exists in the leaf level but holds padding only
    assert_eq!(tree.generate_proof(3).unwrap_err(), "Invalid index");
    assert_eq!(tree.generate_proof(100).unwrap_err(), "Invalid index");
}

#[test]
/// Equal elements are allowed: duplicates hash identically and each position
/// still verifies on its own.
fn duplicate_elements_round_trip() {
    let data = vec!["Crypto", "Crypto"];
    let tree = MerkleTree::new(data.clone());
    assert_eq!(tree.level(0)[0], tree.level(0)[1]);
    for i in 0..2 {
        let proof = tree.generate_proof(i).unwrap();
        assert!(tree.verify(proof, i, hash_element("Crypto")));
    }
}
