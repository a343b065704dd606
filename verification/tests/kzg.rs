use rand::{rngs::StdRng, Rng, SeedableRng};
use verkle::vc::{VectorCommitment, ARITY};
use verkle::KzgVc;

#[test]
fn test_kzg_vc() {
    let mut rng = StdRng::seed_from_u64(0xDEADBEEFCAFEBABE);
    let kzg_vc = KzgVc::setup(&mut rng).expect("setup");

    // Test commitment: one digest repeated in every slot, as a vector of
    // canonical byte strings.
    let mut digest = vec![0u8; 32];
    rng.fill(digest.as_mut_slice());
    digest[31] = 0; // keep the scalar below the field modulus
    let children: Vec<Vec<u8>> = (0..ARITY).map(|_| digest.clone()).collect();
    let comm = kzg_vc.commit_from_children(&children);

    // Test opening
    for (i, child) in children.iter().enumerate() {
        let (value, proof) = kzg_vc.open_at(&children, i);
        let is_valid = kzg_vc.verify_at(&comm, 0, &value, &proof);
        assert!(is_valid);
        assert_eq!(&value, child);
    }
}
