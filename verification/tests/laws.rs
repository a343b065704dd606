use rand::{rngs::StdRng, SeedableRng};
use verkle::vc::{verify_proof, Step};
use verkle::{KzgVc, Value, VerkleTree};

fn key_from_bytes(stem: [u8; 31], suffix: u8) -> [u8; 32] {
    let mut k = [0u8; 32];
    k[..31].copy_from_slice(&stem);
    k[31] = suffix;
    k
}

fn stem_repeat(b: u8) -> [u8; 31] {
    let mut s = [0u8; 31];
    s.fill(b);
    s
}

/// Two trees with byte-identical setups (same seed) hold the same scheme.
fn tree_pair(seed: u64) -> (VerkleTree<KzgVc>, VerkleTree<KzgVc>) {
    let mut r1 = StdRng::seed_from_u64(seed);
    let mut r2 = StdRng::seed_from_u64(seed);
    let k1 = KzgVc::setup(&mut r1).expect("KZG setup should not fail");
    let k2 = KzgVc::setup(&mut r2).expect("KZG setup should not fail");
    (VerkleTree::new(k1), VerkleTree::new(k2))
}

#[test]
fn single_key_round_trip_with_proof() {
    let mut rng = StdRng::seed_from_u64(2);
    let kzg = KzgVc::setup(&mut rng).expect("KZG setup should not fail");
    let mut t = VerkleTree::<KzgVc>::new(kzg);
    let k = key_from_bytes(stem_repeat(0xAB), 0x01);

    t.insert(k, Value(b"hello".to_vec()));
    assert_eq!(t.get(k).unwrap().0, b"hello");

    let root = t.commit();
    let proof = t.prove_get(k).unwrap();
    assert_eq!(proof.value, b"hello".to_vec());
    assert!(verify_proof(t.scheme_ref(), &root, &proof, k));
}

#[test]
fn root_changes_after_second_insert() {
    let mut rng = StdRng::seed_from_u64(3);
    let kzg = KzgVc::setup(&mut rng).expect("KZG setup should not fail");
    let mut t = VerkleTree::<KzgVc>::new(kzg);

    let k1 = key_from_bytes(stem_repeat(0x11), 0x01);
    let k2 = key_from_bytes(stem_repeat(0x22), 0xF0);

    t.insert(k1, Value(b"one".to_vec()));
    let root1 = t.commit();
    t.insert(k2, Value(b"two".to_vec()));
    let root2 = t.commit();

    assert_ne!(root1, root2);
    assert_eq!(t.get(k1).unwrap().0, b"one");
    assert_eq!(t.get(k2).unwrap().0, b"two");
}

#[test]
fn insertion_order_does_not_affect_root() {
    let (mut ta, mut tb) = tree_pair(4);

    let keys = [
        (key_from_bytes(stem_repeat(0x11), 0x01), b"a".to_vec()),
        (key_from_bytes(stem_repeat(0x11), 0x02), b"b".to_vec()),
        (key_from_bytes(stem_repeat(0x33), 0x01), b"c".to_vec()),
        (key_from_bytes(stem_repeat(0x34), 0xFF), b"d".to_vec()),
    ];

    for (k, v) in keys.iter() {
        ta.insert(*k, Value(v.clone()));
    }
    for (k, v) in keys.iter().rev() {
        tb.insert(*k, Value(v.clone()));
    }

    assert_eq!(ta.commit(), tb.commit());
}

#[test]
fn equal_content_gives_equal_root() {
    let (mut ta, mut tb) = tree_pair(5);

    let k = key_from_bytes(stem_repeat(0x77), 0x2A);
    // Same final content, reached through an overwrite on one side.
    ta.insert(k, Value(b"old".to_vec()));
    ta.insert(k, Value(b"new".to_vec()));
    tb.insert(k, Value(b"new".to_vec()));

    assert_eq!(ta.commit(), tb.commit());
}

#[test]
fn empty_trees_share_canonical_root() {
    let (ta, tb) = tree_pair(6);
    assert_eq!(ta.commit(), tb.commit());
    let mut tc = ta;
    tc.insert(key_from_bytes(stem_repeat(1), 1), Value(b"x".to_vec()));
    assert_ne!(tb.commit(), tc.commit());
}

#[test]
fn overwrite_changes_root() {
    let mut rng = StdRng::seed_from_u64(7);
    let kzg = KzgVc::setup(&mut rng).expect("KZG setup should not fail");
    let mut t = VerkleTree::<KzgVc>::new(kzg);

    let k = key_from_bytes(stem_repeat(0x55), 0x10);
    t.insert(k, Value(b"before".to_vec()));
    let root1 = t.commit();
    t.insert(k, Value(b"after".to_vec()));
    let root2 = t.commit();

    assert_ne!(root1, root2);
}

#[test]
fn proof_for_overwritten_value_fails() {
    let mut rng = StdRng::seed_from_u64(8);
    let kzg = KzgVc::setup(&mut rng).expect("KZG setup should not fail");
    let mut t = VerkleTree::<KzgVc>::new(kzg);

    let k = key_from_bytes(stem_repeat(0x77), 0x2A);
    t.insert(k, Value(b"first".to_vec()));
    t.insert(k, Value(b"second".to_vec()));
    assert_eq!(t.get(k).unwrap().0, b"second");

    let root = t.commit();
    let mut proof = t.prove_get(k).unwrap();
    assert!(verify_proof(t.scheme_ref(), &root, &proof, k));

    // The same chain with the earlier value bytes must be rejected.
    proof.value = b"first".to_vec();
    assert!(!verify_proof(t.scheme_ref(), &root, &proof, k));
}

#[test]
fn tampered_commitment_fails() {
    let mut rng = StdRng::seed_from_u64(9);
    let kzg = KzgVc::setup(&mut rng).expect("KZG setup should not fail");
    let mut t = VerkleTree::<KzgVc>::new(kzg);

    let k1 = key_from_bytes(stem_repeat(0x10), 0x01);
    let k2 = key_from_bytes(stem_repeat(0x20), 0x02);
    t.insert(k1, Value(b"one".to_vec()));
    t.insert(k2, Value(b"two".to_vec()));
    let root = t.commit();

    let proof = t.prove_get(k1).unwrap();
    assert!(verify_proof(t.scheme_ref(), &root, &proof, k1));

    // Flip one byte of the terminal extension commitment.
    let mut tampered = proof.clone();
    let last = tampered.steps.len() - 1;
    match &mut tampered.steps[last] {
        Step::Extension { ext_commit, .. } => ext_commit[0] ^= 1,
        Step::Internal { parent_commit, .. } => parent_commit[0] ^= 1,
    }
    assert!(!verify_proof(t.scheme_ref(), &root, &tampered, k1));
}

#[test]
fn tampered_opening_fails() {
    let mut rng = StdRng::seed_from_u64(10);
    let kzg = KzgVc::setup(&mut rng).expect("KZG setup should not fail");
    let mut t = VerkleTree::<KzgVc>::new(kzg);

    let k1 = key_from_bytes(stem_repeat(0x10), 0x01);
    let k2 = key_from_bytes(stem_repeat(0x10), 0x02);
    t.insert(k1, Value(b"one".to_vec()));
    t.insert(k2, Value(b"two".to_vec()));
    let root = t.commit();

    let proof = t.prove_get(k1).unwrap();
    assert!(verify_proof(t.scheme_ref(), &root, &proof, k1));

    let mut tampered = proof.clone();
    let last = tampered.steps.len() - 1;
    match &mut tampered.steps[last] {
        Step::Extension { opening, .. } => opening[0] ^= 1,
        Step::Internal { opening, .. } => opening[0] ^= 1,
    }
    assert!(!verify_proof(t.scheme_ref(), &root, &tampered, k1));
}

#[test]
fn overlong_proof_rejected() {
    let mut rng = StdRng::seed_from_u64(11);
    let kzg = KzgVc::setup(&mut rng).expect("KZG setup should not fail");
    let mut t = VerkleTree::<KzgVc>::new(kzg);

    let k = key_from_bytes(stem_repeat(0x66), 0x07);
    t.insert(k, Value(b"v".to_vec()));
    let root = t.commit();

    let proof = t.prove_get(k).unwrap();
    let mut long = proof.clone();
    while long.steps.len() <= 32 {
        long.steps.insert(0, proof.steps[0].clone());
    }
    assert!(!verify_proof(t.scheme_ref(), &root, &long, k));
}

#[test]
fn wrong_root_rejected() {
    let mut rng = StdRng::seed_from_u64(12);
    let kzg = KzgVc::setup(&mut rng).expect("KZG setup should not fail");
    let mut t = VerkleTree::<KzgVc>::new(kzg);

    let k1 = key_from_bytes(stem_repeat(0x41), 0x01);
    t.insert(k1, Value(b"one".to_vec()));
    let old_root = t.commit();
    let old_proof = t.prove_get(k1).unwrap();
    assert!(verify_proof(t.scheme_ref(), &old_root, &old_proof, k1));

    // After another write the old proof no longer matches the published root.
    let k2 = key_from_bytes(stem_repeat(0x42), 0x01);
    t.insert(k2, Value(b"two".to_vec()));
    let new_root = t.commit();
    assert!(!verify_proof(t.scheme_ref(), &new_root, &old_proof, k1));
}

#[test]
fn absent_slot_has_no_proof() {
    let mut rng = StdRng::seed_from_u64(13);
    let kzg = KzgVc::setup(&mut rng).expect("KZG setup should not fail");
    let mut t = VerkleTree::<KzgVc>::new(kzg);

    assert!(t.prove_get(key_from_bytes(stem_repeat(0x01), 0x01)).is_none());

    let stem = stem_repeat(0x31);
    t.insert(key_from_bytes(stem, 0x01), Value(b"v".to_vec()));
    // Same stem, different suffix: stored extension, empty slot.
    assert!(t.prove_get(key_from_bytes(stem, 0x02)).is_none());
    // Different stem entirely.
    assert!(t.prove_get(key_from_bytes(stem_repeat(0x32), 0x01)).is_none());
}

#[test]
fn deep_divergence_proofs_verify() {
    let mut rng = StdRng::seed_from_u64(14);
    let kzg = KzgVc::setup(&mut rng).expect("KZG setup should not fail");
    let mut t = VerkleTree::<KzgVc>::new(kzg);

    // Stems agreeing on bytes 0..=29, differing at byte 30 (the last stem byte).
    let mut s1 = stem_repeat(0x55);
    let mut s2 = stem_repeat(0x55);
    s1[30] = 0x01;
    s2[30] = 0xFE;
    let k1 = key_from_bytes(s1, 0x00);
    let k2 = key_from_bytes(s2, 0xFF);

    t.insert(k1, Value(b"v1".to_vec()));
    t.insert(k2, Value(b"v2".to_vec()));
    let root = t.commit();

    let p1 = t.prove_get(k1).unwrap();
    let p2 = t.prove_get(k2).unwrap();
    assert!(verify_proof(t.scheme_ref(), &root, &p1, k1));
    assert!(verify_proof(t.scheme_ref(), &root, &p2, k2));
    // 30 shared bytes mean 30 internal links plus the fork and the leaf.
    assert_eq!(p1.steps.len(), 32);
}
