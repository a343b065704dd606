//! The vector-commitment interface and the stateless proof verifier.
//!
//! A vector commitment binds a vector of `ARITY` digests (each a canonical
//! 32-byte scalar encoding, see `utils`) to one short commitment, and can
//! open any single position. The tree is parametric over this capability;
//! the KZG backend in `kzg` implements it. Commitments, openings and
//! digests all cross this interface as plain byte vectors.
//!
//! `verify_proof` checks a root-to-leaf chain of openings against a claimed
//! key and value. Its whole behaviour is the spec function
//! `spec_verify_proof`, from which the format and binding lemmas below
//! follow.

use vstd::prelude::*;

use crate::node::split_key;
use crate::utils::{hash_to_field, hash_to_field_of};

verus! {

/// Branching factor of every node, and the width of every committed vector:
/// one byte of key material per branch and per suffix slot.
pub const ARITY: usize = 256;

/// A binding commitment to a vector of `ARITY` digests, with openings at
/// single positions. `commit_spec` and `verify_spec` name, for each
/// concrete scheme, what its commitment and verdict are as functions of the
/// scheme's parameters and the byte inputs; the executable methods are
/// pinned to those names. `open_at` must produce openings that verify
/// (completeness), which is the one algebraic promise the tree's proof
/// generator relies on.
pub trait VectorCommitment: Sized {
    /// The commitment bytes for a digest vector.
    spec fn commit_spec(&self, children: Seq<Seq<u8>>) -> Seq<u8>;

    /// The verdict of opening verification.
    spec fn verify_spec(
        &self,
        commitment: Seq<u8>,
        index: int,
        value_digest: Seq<u8>,
        opening: Seq<u8>,
    ) -> bool;

    /// Deterministic commitment to an `ARITY`-vector of digests.
    fn commit_from_children(&self, children: &Vec<Vec<u8>>) -> (commitment: Vec<u8>)
        requires
            children@.len() == ARITY,
        ensures
            commitment@ == self.commit_spec(children.deep_view()),
    ;

    /// Opens position `index`: returns the digest at that position together
    /// with an opening that verifies against the vector's commitment.
    fn open_at(&self, children: &Vec<Vec<u8>>, index: usize) -> (r: (Vec<u8>, Vec<u8>))
        requires
            children@.len() == ARITY,
            index < ARITY,
        ensures
            r.0@ == children.deep_view()[index as int],
            self.verify_spec(
                self.commit_spec(children.deep_view()),
                index as int,
                children.deep_view()[index as int],
                r.1@,
            ),
    ;

    /// Checks an opening against `(commitment, index, value_digest)`.
    fn verify_at(
        &self,
        commitment: &Vec<u8>,
        index: usize,
        value_digest: &Vec<u8>,
        opening: &Vec<u8>,
    ) -> (ok: bool)
        requires
            index < ARITY,
        ensures
            ok == self.verify_spec(commitment@, index as int, value_digest@, opening@),
    ;
}

/// One step of a lookup proof: either an internal-node hop or the terminal
/// extension-node opening. The extension step carries the full stem of the
/// extension it opens, and the verifier requires that stem to equal the
/// stem of the key being checked; this binds the stem bytes that lie below
/// the fork depth, which the chained openings alone do not commit to.
#[derive(Clone, Debug, PartialEq, Eq)]
pub enum Step {
    Internal {
        /// Commitment of the internal node's digest array.
        parent_commit: Vec<u8>,
        /// Branch taken: the stem byte at this depth.
        index: usize,
        /// Digest stored at that branch (the hash of the child's commitment).
        child_digest: Vec<u8>,
        /// Opening of `(parent_commit, index, child_digest)`.
        opening: Vec<u8>,
    },
    Extension {
        /// Commitment of the extension node's slot-digest array.
        ext_commit: Vec<u8>,
        /// Slot opened: the key's suffix byte.
        index: usize,
        /// The full 31-byte stem of the extension node.
        stem: [u8; 31],
        /// Opening of `(ext_commit, index, hash of the value bytes)`.
        opening: Vec<u8>,
    },
}

/// A single-key inclusion proof: internal hops from the root, then exactly
/// one extension hop, plus the claimed value bytes.
#[derive(Clone, Debug, PartialEq, Eq)]
pub struct VerkleProof {
    pub steps: Vec<Step>,
    pub value: Vec<u8>,
}

/// The commitment a step embeds.
pub open spec fn step_commit(s: Step) -> Seq<u8> {
    match s {
        Step::Internal { parent_commit, .. } => parent_commit@,
        Step::Extension { ext_commit, .. } => ext_commit@,
    }
}

/// The digest an internal step claims for its child.
pub open spec fn step_child_digest(s: Step) -> Seq<u8> {
    match s {
        Step::Internal { child_digest, .. } => child_digest@,
        Step::Extension { .. } => Seq::empty(),
    }
}

/// All checks on an internal step at position `pos` of the walk: the branch
/// index repeats the key's stem byte at that depth, and the opening
/// verifies.
pub open spec fn internal_step_ok<V: VectorCommitment>(
    vc: V,
    s: Step,
    pos: int,
    key: Seq<u8>,
) -> bool {
    match s {
        Step::Internal { parent_commit, index, child_digest, opening } => {
            &&& 0 <= pos < 31
            &&& index == key[pos] as int
            &&& vc.verify_spec(parent_commit@, index as int, child_digest@, opening@)
        },
        Step::Extension { .. } => false,
    }
}

/// All checks on the terminal extension step: the slot index repeats the
/// key's suffix, the carried stem equals the key's stem (stem binding), and
/// the opening verifies against the digest of the claimed value bytes.
pub open spec fn extension_step_ok<V: VectorCommitment>(
    vc: V,
    s: Step,
    key: Seq<u8>,
    value: Seq<u8>,
) -> bool {
    match s {
        Step::Internal { .. } => false,
        Step::Extension { ext_commit, index, stem, opening } => {
            &&& index == key[31] as int
            &&& stem@ == key.take(31)
            &&& vc.verify_spec(ext_commit@, index as int, hash_to_field_of(value), opening@)
        },
    }
}

/// The verifier's acceptance condition on a step sequence whose first step
/// sits at depth `off` of the walk (the public entry uses `off == 0`):
/// at least one step and at most `32 - off` in all, internal steps
/// followed by exactly one terminal extension step, every step after the
/// first hashing to the digest its predecessor opened, and every step's own
/// checks passing.
pub open spec fn steps_ok<V: VectorCommitment>(
    vc: V,
    steps: Seq<Step>,
    off: int,
    key: Seq<u8>,
    value: Seq<u8>,
) -> bool {
    &&& steps.len() >= 1
    &&& off + steps.len() <= 32
    &&& forall|j: int| 0 <= j < steps.len() - 1 ==> internal_step_ok(vc, #[trigger] steps[j], off + j, key)
    &&& extension_step_ok(vc, steps[steps.len() - 1], key, value)
    &&& forall|j: int|
        1 <= j < steps.len() ==> hash_to_field_of(
            step_commit(#[trigger] steps[j]),
        ) == step_child_digest(steps[j - 1])
}

/// Acceptance condition of `verify_proof`: the step
/// chain passes all checks starting from depth 0, and the first step's
/// embedded commitment is byte-for-byte the published root commitment.
pub open spec fn spec_verify_proof<V: VectorCommitment>(
    vc: V,
    root_commit: Seq<u8>,
    pf: VerkleProof,
    key: Seq<u8>,
) -> bool {
    &&& steps_ok(vc, pf.steps@, 0, key, pf.value@)
    &&& step_commit(pf.steps@[0]) == root_commit
}

/// Checks a lookup proof against a published root commitment and the key
/// it claims inclusion for. Stateless: everything checked comes from the
/// proof, the key and the root commitment.
pub fn verify_proof<V: VectorCommitment>(
    vc: &V,
    root_commit: &Vec<u8>,
    pf: &VerkleProof,
    key: [u8; 32],
) -> (r: bool)
    ensures
        r == spec_verify_proof(*vc, root_commit@, *pf, key@),
{
    let (stem, suffix) = split_key(key);
    let n = pf.steps.len();
    if n == 0 {
        return false;
    }
    if n > 32 {
        return false;
    }
    let val_digest = hash_to_field(pf.value.as_slice());
    // Digest the next step's commitment must hash to; meaningful once one
    // internal step has been checked.
    let mut expected: Vec<u8> = Vec::new();
    let mut i: usize = 0;
    while i < n
        invariant
            1 <= n <= 32,
            n == pf.steps@.len(),
            0 <= i <= n,
            stem@ == key@.take(31),
            suffix == key@[31],
            val_digest@ == hash_to_field_of(pf.value@),
            forall|j: int|
                0 <= j < i ==> internal_step_ok(*vc, #[trigger] pf.steps@[j], j, key@),
            i >= 1 ==> step_commit(pf.steps@[0]) == root_commit@,
            i >= 1 ==> expected@ == step_child_digest(pf.steps@[i - 1]),
            forall|j: int|
                1 <= j < i ==> hash_to_field_of(step_commit(#[trigger] pf.steps@[j]))
                    == step_child_digest(pf.steps@[j - 1]),
        decreases n - i,
    {
        match &pf.steps[i] {
            Step::Internal { parent_commit, index, child_digest, opening } => {
                if i == 0 {
                    if !bytes_equal(parent_commit, root_commit) {
                        proof {
                            assert(step_commit(pf.steps@[0]) != root_commit@);
                        }
                        return false;
                    }
                } else {
                    let got = crate::utils::digest_commit(parent_commit);
                    if !bytes_equal(&got, &expected) {
                        proof {
                            assert(hash_to_field_of(step_commit(pf.steps@[i as int]))
                                != step_child_digest(pf.steps@[i - 1]));
                        }
                        return false;
                    }
                }
                if i + 1 == n {
                    proof {
                        assert(!extension_step_ok(*vc, pf.steps@[n - 1], key@, pf.value@));
                    }
                    return false;
                }
                let idx = stem[i] as usize;
                if *index != idx {
                    proof {
                        assert(!internal_step_ok(*vc, pf.steps@[i as int], i as int, key@));
                    }
                    return false;
                }
                if !vc.verify_at(parent_commit, idx, child_digest, opening) {
                    proof {
                        assert(!internal_step_ok(*vc, pf.steps@[i as int], i as int, key@));
                    }
                    return false;
                }
                expected = child_digest.clone();
                proof {
                    assert(expected@ == step_child_digest(pf.steps@[i as int]));
                    assert(internal_step_ok(*vc, pf.steps@[i as int], i as int, key@));
                }
            },
            Step::Extension { ext_commit, index, stem: step_stem, opening } => {
                if i == 0 {
                    if !bytes_equal(ext_commit, root_commit) {
                        proof {
                            assert(step_commit(pf.steps@[0]) != root_commit@);
                        }
                        return false;
                    }
                } else {
                    let got = crate::utils::digest_commit(ext_commit);
                    if !bytes_equal(&got, &expected) {
                        proof {
                            assert(hash_to_field_of(step_commit(pf.steps@[i as int]))
                                != step_child_digest(pf.steps@[i - 1]));
                        }
                        return false;
                    }
                }
                if i + 1 != n {
                    proof {
                        assert(!internal_step_ok(*vc, pf.steps@[i as int], i as int, key@));
                    }
                    return false;
                }
                if *index != suffix as usize {
                    proof {
                        assert(!extension_step_ok(*vc, pf.steps@[i as int], key@, pf.value@));
                    }
                    return false;
                }
                if !crate::node::stems_equal(step_stem, &stem) {
                    proof {
                        assert(!extension_step_ok(*vc, pf.steps@[i as int], key@, pf.value@));
                    }
                    return false;
                }
                if !vc.verify_at(ext_commit, suffix as usize, &val_digest, opening) {
                    proof {
                        assert(!extension_step_ok(*vc, pf.steps@[i as int], key@, pf.value@));
                    }
                    return false;
                }
                proof {
                    assert(extension_step_ok(*vc, pf.steps@[i as int], key@, pf.value@));
                    assert(spec_verify_proof(*vc, root_commit@, *pf, key@));
                }
                return true;
            },
        }
        i += 1;
    }
    // Every step was internal, so the required terminal extension step is
    // missing.
    proof {
        assert(pf.steps@[n - 1] is Internal);
        assert(!extension_step_ok(*vc, pf.steps@[n - 1], key@, pf.value@));
    }
    false
}

/// Byte-for-byte equality of two byte vectors.
fn bytes_equal(a: &Vec<u8>, b: &Vec<u8>) -> (r: bool)
    ensures
        r == (a@ == b@),
{
    if a.len() != b.len() {
        return false;
    }
    let mut i: usize = 0;
    while i < a.len()
        invariant
            a@.len() == b@.len(),
            0 <= i <= a@.len(),
            forall|j: int| 0 <= j < i ==> a@[j] == b@[j],
        decreases a@.len() - i,
    {
        if a.as_slice()[i] != b.as_slice()[i] {
            return false;
        }
        i += 1;
    }
    proof {
        assert(a@ =~= b@);
    }
    true
}

/// A proof accepted for two keys was made for one key only: the verifier
/// pins the whole key, stem and suffix alike, so acceptance under two
/// keys forces them to be equal. In particular a proof generated for one
/// key fails for any key that differs anywhere in the stem, including the
/// bytes below the fork that the opening chain does not itself commit to.
pub proof fn lemma_proof_binds_key<V: VectorCommitment>(
    vc: V,
    root_commit: Seq<u8>,
    pf: VerkleProof,
    k1: Seq<u8>,
    k2: Seq<u8>,
)
    requires
        k1.len() == 32,
        k2.len() == 32,
        spec_verify_proof(vc, root_commit, pf, k1),
        spec_verify_proof(vc, root_commit, pf, k2),
    ensures
        k1 == k2,
{
    let last = pf.steps@[pf.steps@.len() - 1];
    assert(extension_step_ok(vc, last, k1, pf.value@));
    assert(extension_step_ok(vc, last, k2, pf.value@));
    assert forall|i: int| 0 <= i < 32 implies k1[i] == k2[i] by {
        if i < 31 {
            match last {
                Step::Extension { stem, .. } => {
                    assert(k1.take(31)[i] == k1[i]);
                    assert(k2.take(31)[i] == k2[i]);
                    assert(stem@ == k1.take(31) && stem@ == k2.take(31));
                },
                Step::Internal { .. } => {},
            }
        }
    }
    assert(k1 =~= k2);
}

/// Malformed proofs are rejected outright: an empty or overlong step
/// chain, a chain not ending in an extension step, or a first step whose
/// embedded commitment is not the published root.
pub proof fn lemma_malformed_proof_rejected<V: VectorCommitment>(
    vc: V,
    root_commit: Seq<u8>,
    pf: VerkleProof,
    key: Seq<u8>,
)
    ensures
        pf.steps@.len() == 0 ==> !spec_verify_proof(vc, root_commit, pf, key),
        pf.steps@.len() > 32 ==> !spec_verify_proof(vc, root_commit, pf, key),
        pf.steps@.len() >= 1 && !(pf.steps@[pf.steps@.len() - 1] is Extension)
            ==> !spec_verify_proof(vc, root_commit, pf, key),
        pf.steps@.len() >= 1 && step_commit(pf.steps@[0]) != root_commit
            ==> !spec_verify_proof(vc, root_commit, pf, key),
{
    if pf.steps@.len() >= 1 && !(pf.steps@[pf.steps@.len() - 1] is Extension) {
        assert(!extension_step_ok(vc, pf.steps@[pf.steps@.len() - 1], key, pf.value@));
    }
}

} // verus!
