//! The tree itself: lookup, insertion, root commitment and proof
//! generation over the node model of `node`.
//!
//! The tree's abstract state is a map from 32-byte keys to value byte
//! strings (`view`). Its invariant `wf` couples the node shapes to their
//! paths and keeps every stored digest array fresh, so the root commitment
//! is always available without a full recomputation: each insertion
//! recommits exactly the nodes along the changed path.

use vstd::prelude::*;

use crate::node::{
    ext_slots_get, key_of, make_extension, node_commitment, node_fresh, node_get, node_wf,
    singleton_slots, split_extension, split_key, stems_equal, zero_child_digest_array,
    ExtensionNode, Node, Value,
};
use crate::utils::{digest_commit, zero_child_spec};
use crate::vc::{
    extension_step_ok, internal_step_ok, spec_verify_proof, step_commit, steps_ok,
    Step, VectorCommitment, VerkleProof,
};

verus! {

/// An authenticated key-value map: a nullable root node plus the vector
/// commitment scheme the tree is committed under.
pub struct VerkleTree<V: VectorCommitment> {
    root: Option<Node>,
    vc: V,
}

impl<V: VectorCommitment> View for VerkleTree<V> {
    type V = Map<Seq<u8>, Seq<u8>>;

    /// The key-value map the tree holds: 32-byte keys, routed by their
    /// first 31 bytes (the stem) and their last byte (the suffix).
    closed spec fn view(&self) -> Map<Seq<u8>, Seq<u8>> {
        match self.root {
            None => Map::empty(),
            Some(n) => Map::new(
                |k: Seq<u8>| k.len() == 32 && node_get(n, 0, k.take(31), k[31]) is Some,
                |k: Seq<u8>| node_get(n, 0, k.take(31), k[31])->0,
            ),
        }
    }
}

impl<V: VectorCommitment> VerkleTree<V> {
    /// The commitment scheme the tree was built with.
    pub closed spec fn scheme(&self) -> V {
        self.vc
    }

    /// Validity: the root (if any) is well formed at the empty path and
    /// every stored digest array is fresh.
    pub closed spec fn wf(&self) -> bool {
        match self.root {
            None => true,
            Some(n) => node_wf(n, Seq::empty()) && node_fresh(self.vc, n),
        }
    }

    /// The root commitment the tree publishes: the commitment of the root
    /// node, or, for the empty tree, the canonical commitment of the
    /// all-`ZERO_CHILD` digest vector.
    pub closed spec fn root_commitment(&self) -> Seq<u8> {
        match self.root {
            Some(n) => node_commitment(self.vc, n),
            None => self.vc.commit_spec(Seq::new(256, |i: int| zero_child_spec())),
        }
    }

    /// An empty tree.
    pub fn new(vc: V) -> (t: Self)
        ensures
            t.wf(),
            t@ == Map::<Seq<u8>, Seq<u8>>::empty(),
            t.scheme() == vc,
    {
        VerkleTree { root: None, vc }
    }

    /// A borrow of the commitment scheme, for checking proofs against this
    /// tree's commitments.
    pub fn scheme_ref(&self) -> (r: &V)
        ensures
            *r == self.scheme(),
    {
        &self.vc
    }

    /// Looks a key up: `Some` exactly when the key is in the map, and then
    /// the stored bytes.
    pub fn get(&self, key: [u8; 32]) -> (r: Option<&Value>)
        ensures
            match r {
                Some(v) => self@.contains_key(key@) && self@[key@] == v.0@,
                None => !self@.contains_key(key@),
            },
    {
        let (stem, suffix) = split_key(key);
        match &self.root {
            None => None,
            Some(n) => {
                let r = get_in_node(n, 0, &stem, suffix);
                proof {
                    assert(key@.take(31) == stem@);
                }
                r
            },
        }
    }

    /// Inserts or overwrites: afterwards the map holds `value` at `key`
    /// and is elsewhere unchanged. Recommits the changed path, so the tree
    /// stays fresh.
    pub fn insert(&mut self, key: [u8; 32], value: Value)
        requires
            old(self).wf(),
        ensures
            final(self).wf(),
            final(self)@ == old(self)@.insert(key@, value.0@),
            final(self).scheme() == old(self).scheme(),
    {
        let (stem, suffix) = split_key(key);
        let ghost value_bytes = value.0@;
        let root = self.root.take();
        match root {
            None => {
                let slots = singleton_slots(suffix, value);
                proof {
                    assert(slots@[suffix as int] is Some);
                    assert(stem@.take(0) =~= Seq::<u8>::empty());
                }
                let (n, _c) = make_extension(&self.vc, stem, slots, Ghost(Seq::empty()));
                self.root = Some(n);
                proof {
                    assert forall|k: Seq<u8>| #[trigger] self@.contains_key(k) implies old(
                        self,
                    )@.insert(key@, value_bytes).contains_key(k) by {
                        assert(k.take(31) == stem@ && ext_slots_get(slots@, k[31]) is Some);
                        assert(k[31] == suffix);
                        lemma_key_from_parts(k, key@);
                    }
                    assert(self@.contains_key(key@)) by {
                        assert(key@.len() == 32 && key@.take(31) == stem@ && key@[31] == suffix);
                    }
                    assert(self@ =~= old(self)@.insert(key@, value_bytes));
                }
            },
            Some(n) => {
                proof {
                    assert(stem@.take(0) =~= Seq::<u8>::empty());
                }
                let (n2, _c) = insert_in_node(&self.vc, n, 0, stem, suffix, value);
                self.root = Some(n2);
                proof {
                    let m_old = old(self)@;
                    assert forall|k: Seq<u8>| #[trigger] m_old.insert(
                        key@,
                        value_bytes,
                    ).contains_key(k) implies self@.contains_key(k) && self@[k] == m_old.insert(
                        key@,
                        value_bytes,
                    )[k] by {
                        lemma_key_from_parts(k, key@);
                        if k == key@ {
                            assert(node_get(n2, 0, key@.take(31), key@[31]) == Some(value_bytes));
                        }
                    }
                    assert forall|k: Seq<u8>| #[trigger] self@.contains_key(k) implies m_old.insert(
                        key@,
                        value_bytes,
                    ).contains_key(k) by {
                        lemma_key_from_parts(k, key@);
                    }
                    assert(self@ =~= m_old.insert(key@, value_bytes));
                }
            },
        }
    }

    /// Generates an inclusion proof for `key`: `Some` exactly when the key
    /// is in the map, and then a proof carrying the stored value that
    /// passes `verify_proof` against this tree's root commitment
    /// (completeness).
    pub fn prove_get(&self, key: [u8; 32]) -> (r: Option<VerkleProof>)
        requires
            self.wf(),
        ensures
            r is Some <==> self@.contains_key(key@),
            match r {
                Some(p) => {
                    &&& p.value@ == self@[key@]
                    &&& spec_verify_proof(self.scheme(), self.root_commitment(), p, key@)
                },
                None => true,
            },
    {
        let (stem, suffix) = split_key(key);
        match &self.root {
            None => None,
            Some(n) => {
                proof {
                    assert(stem@.take(0) =~= Seq::<u8>::empty());
                    assert(key_of(stem@, suffix) =~= key@);
                }
                let r = prove_in_node(&self.vc, n, 0, &stem, suffix);
                proof {
                    if r is Some {
                        let p = r->0;
                        assert(steps_ok(self.vc, p.steps@, 0, key@, p.value@));
                    }
                }
                r
            },
        }
    }

    /// The published root commitment. For a well-formed tree the stored
    /// digest arrays are fresh, so only the root's own commitment is
    /// recomputed.
    pub fn commit(&self) -> (r: Vec<u8>)
        requires
            self.wf(),
        ensures
            r@ == self.root_commitment(),
    {
        match &self.root {
            None => {
                let digests = zero_child_digest_array();
                self.vc.commit_from_children(&digests)
            },
            Some(n) => match n {
                Node::Internal { commitments, .. } => self.vc.commit_from_children(commitments),
                Node::Extension { slot_commitment, .. } => self.vc.commit_from_children(
                    slot_commitment,
                ),
            },
        }
    }
}

/// Determinism of the root commitment: two well-formed trees under the
/// same scheme holding the same key-value map publish identical root
/// commitments, whatever sequence of insertions produced each. With
/// `lemma_insert_commutes` this gives independence of insertion order.
pub proof fn lemma_root_commitment_deterministic<V: VectorCommitment>(
    t1: VerkleTree<V>,
    t2: VerkleTree<V>,
)
    requires
        t1.wf(),
        t2.wf(),
        t1.scheme() == t2.scheme(),
        t1@ == t2@,
    ensures
        t1.root_commitment() == t2.root_commitment(),
{
    let empty = Seq::<u8>::empty();
    match (t1.root, t2.root) {
        (None, None) => {},
        (Some(n1), Some(n2)) => {
            assert forall|stem: Seq<u8>, suffix: u8| stem.len() == 31 implies (#[trigger]
            node_get(n1, empty.len() as int, stem, suffix)) == node_get(
                n2,
                empty.len() as int,
                stem,
                suffix,
            ) by {
                let k = key_of(stem, suffix);
                assert(k.take(31) =~= stem);
                assert(k[31] == suffix);
                assert(t1@.contains_key(k) == t2@.contains_key(k));
                if t1@.contains_key(k) {
                    assert(t1@[k] == t2@[k]);
                }
            }
            crate::node::lemma_node_determined(t1.vc, n1, n2, empty);
        },
        (Some(n1), None) => {
            crate::node::lemma_node_nonempty(n1, empty);
            let (stem, suffix) = choose|stem: Seq<u8>, suffix: u8|
                stem.len() == 31 && stem.take(empty.len() as int) == empty && (#[trigger]
                node_get(n1, empty.len() as int, stem, suffix)) is Some;
            let k = key_of(stem, suffix);
            assert(k.take(31) =~= stem);
            assert(k[31] == suffix);
            assert(t1@.contains_key(k));
            assert(!t2@.contains_key(k));
        },
        (None, Some(n2)) => {
            crate::node::lemma_node_nonempty(n2, empty);
            let (stem, suffix) = choose|stem: Seq<u8>, suffix: u8|
                stem.len() == 31 && stem.take(empty.len() as int) == empty && (#[trigger]
                node_get(n2, empty.len() as int, stem, suffix)) is Some;
            let k = key_of(stem, suffix);
            assert(k.take(31) =~= stem);
            assert(k[31] == suffix);
            assert(t2@.contains_key(k));
            assert(!t1@.contains_key(k));
        },
    }
}

/// An inserted pair reads back: after `insert(k, v)` the map holds `v` at
/// `k`, whatever it held there before; a later insertion at the same key
/// overwrites the earlier one.
pub proof fn lemma_insert_then_get(m: Map<Seq<u8>, Seq<u8>>, k: Seq<u8>, v: Seq<u8>)
    ensures
        m.insert(k, v).contains_key(k),
        m.insert(k, v)[k] == v,
{
}

/// Distinct keys never clobber each other: inserting at one key leaves
/// every other key's presence and value unchanged. In particular two
/// suffixes of one stem, or two stems diverging at any byte, coexist.
pub proof fn lemma_insert_preserves_other_keys(
    m: Map<Seq<u8>, Seq<u8>>,
    k1: Seq<u8>,
    v1: Seq<u8>,
    k2: Seq<u8>,
)
    requires
        k1 != k2,
    ensures
        m.insert(k1, v1).contains_key(k2) == m.contains_key(k2),
        m.contains_key(k2) ==> m.insert(k1, v1)[k2] == m[k2],
{
}

/// Insertions at distinct keys commute, so the map a tree holds, and with
/// `lemma_root_commitment_deterministic` its root commitment, does not
/// depend on the order of insertion.
pub proof fn lemma_insert_commutes(
    m: Map<Seq<u8>, Seq<u8>>,
    k1: Seq<u8>,
    v1: Seq<u8>,
    k2: Seq<u8>,
    v2: Seq<u8>,
)
    requires
        k1 != k2,
    ensures
        m.insert(k1, v1).insert(k2, v2) == m.insert(k2, v2).insert(k1, v1),
{
    assert(m.insert(k1, v1).insert(k2, v2) =~= m.insert(k2, v2).insert(k1, v1));
}

/// A 32-byte key equals `stem.push(suffix)` exactly when its first 31
/// bytes are the stem and its last byte the suffix.
proof fn lemma_key_from_parts(k: Seq<u8>, key: Seq<u8>)
    requires
        k.len() == 32,
        key.len() == 32,
    ensures
        (k == key) <==> (k.take(31) == key.take(31) && k[31] == key[31]),
{
    if k.take(31) == key.take(31) && k[31] == key[31] {
        assert forall|i: int| 0 <= i < 32 implies k[i] == key[i] by {
            if i < 31 {
                assert(k.take(31)[i] == k[i]);
                assert(key.take(31)[i] == key[i]);
            }
        }
        assert(k =~= key);
    }
}

/// The lookup walk from depth `depth`, mirroring `node_get`.
fn get_in_node<'a>(n: &'a Node, depth: usize, stem: &[u8; 31], suffix: u8) -> (r: Option<
    &'a Value,
>)
    requires
        depth <= 31,
    ensures
        match r {
            Some(v) => node_get(*n, depth as int, stem@, suffix) == Some(v.0@),
            None => node_get(*n, depth as int, stem@, suffix) is None,
        },
    decreases 31 - depth,
{
    match n {
        Node::Extension { stem: estem, slots, .. } => {
            if stems_equal(estem, stem) {
                if (suffix as usize) < slots.len() {
                    match &slots[suffix as usize] {
                        Some(v) => Some(v),
                        None => None,
                    }
                } else {
                    None
                }
            } else {
                None
            }
        },
        Node::Internal { children, .. } => {
            if depth < 31 {
                let idx = stem[depth] as usize;
                if idx < children.len() {
                    match &children[idx] {
                        Some(c) => get_in_node(c, depth + 1, stem, suffix),
                        None => None,
                    }
                } else {
                    None
                }
            } else {
                None
            }
        },
    }
}

/// Inserts below a node at depth `depth` of the walk for `stem`, returning
/// the rebuilt node and its commitment. The four insertion shapes: a
/// matching extension is overwritten in its suffix slot; a mismatched
/// extension is split; an internal node recurses, creating a fresh
/// extension where the branch is empty.
fn insert_in_node<V: VectorCommitment>(
    vc: &V,
    n: Node,
    depth: usize,
    stem: [u8; 31],
    suffix: u8,
    value: Value,
) -> (r: (Node, Vec<u8>))
    requires
        depth <= 31,
        node_wf(n, stem@.take(depth as int)),
        node_fresh(*vc, n),
    ensures
        node_wf(r.0, stem@.take(depth as int)),
        node_fresh(*vc, r.0),
        r.1@ == node_commitment(*vc, r.0),
        n is Internal ==> r.0 is Internal,
        forall|s: Seq<u8>, suf: u8| #[trigger]
            node_get(r.0, depth as int, s, suf) == (if s == stem@ && suf == suffix {
                Some(value.0@)
            } else {
                node_get(n, depth as int, s, suf)
            }),
    decreases 31 - depth,
{
    let ghost n0 = n;
    let ghost prefix = stem@.take(depth as int);
    let ghost value_bytes = value.0@;
    match n {
        Node::Extension { stem: estem, slots, slot_commitment } => {
            if stems_equal(&estem, &stem) {
                let mut slots = slots;
                let ghost old_slots = slots@;
                slots[suffix as usize] = Some(value);
                proof {
                    assert(slots@[suffix as int] is Some);
                }
                let r = make_extension(vc, estem, slots, Ghost(prefix));
                proof {
                    assert forall|s: Seq<u8>, suf: u8| #[trigger]
                        node_get(r.0, depth as int, s, suf) == (if s == stem@ && suf == suffix {
                            Some(value_bytes)
                        } else {
                            node_get(n0, depth as int, s, suf)
                        }) by {
                        if s == estem@ && suf != suffix {
                            assert(ext_slots_get(slots@, suf) == ext_slots_get(old_slots, suf));
                        }
                    }
                }
                r
            } else {
                let old_ext = ExtensionNode { stem: estem, slots };
                proof {
                    assert(estem@.take(depth as int) == stem@.take(depth as int));
                }
                let r = split_extension(vc, depth, old_ext, stem, suffix, value);
                r
            }
        },
        Node::Internal { children, commitments } => {
            let mut children = children;
            let mut commitments = commitments;
            let ghost old_children = children@;
            let ghost old_commitments = commitments;
            let idx = stem[depth] as usize;
            proof {
                assert(prefix.len() < 31);
                assert(stem@.take(depth + 1) =~= prefix.push(stem@[depth as int]));
            }
            let child_opt = children[idx].take();
            let (new_child, child_commit) = match child_opt {
                None => {
                    let slots = singleton_slots(suffix, value);
                    proof {
                        assert(slots@[suffix as int] is Some);
                    }
                    make_extension(vc, stem, slots, Ghost(stem@.take(depth + 1)))
                },
                Some(boxed) => {
                    proof {
                        assert(old_children[idx as int] is Some);
                        assert(node_wf(*boxed, prefix.push(idx as u8)));
                    }
                    insert_in_node(vc, *boxed, depth + 1, stem, suffix, value)
                },
            };
            let ghost new_child_g = new_child;
            children[idx] = Some(Box::new(new_child));
            commitments[idx] = digest_commit(&child_commit);
            let commitment = vc.commit_from_children(&commitments);
            let n2 = Node::Internal { children, commitments };
            proof {
                crate::node::lemma_deep_view_bytes(commitments);
                crate::node::lemma_deep_view_bytes(old_commitments);
                assert(node_wf(n2, prefix)) by {
                    assert forall|i: int| 0 <= i < 256 && (#[trigger] children@[i]) is Some
                        implies node_wf(*children@[i]->0, prefix.push(i as u8)) by {
                        if i == idx {
                            assert(*children@[i]->0 == new_child_g);
                            assert(stem@.take(depth + 1) == prefix.push(idx as u8));
                        } else {
                            assert(children@[i] == old_children[i]);
                        }
                    }
                    assert(children@[idx as int] is Some);
                    if !crate::node::two_children(old_children) {
                        if old_children[idx as int] is Some {
                            assert forall|i: int|
                                0 <= i < 256 && (#[trigger] children@[i]) is Some implies (
                            *children@[i]->0) is Internal by {
                                if i == idx {
                                    assert((*old_children[idx as int]->0) is Internal);
                                } else {
                                    assert(children@[i] == old_children[i]);
                                }
                            }
                        } else {
                            let i0 = choose|i: int|
                                0 <= i < 256 && (#[trigger] old_children[i]) is Some;
                            assert(children@[i0] is Some);
                            assert(children@[idx as int] is Some);
                            assert(i0 != idx);
                            if i0 < idx {
                                assert(crate::node::two_children(children@));
                            } else {
                                assert(crate::node::two_children(children@));
                            }
                        }
                    } else {
                        let (i0, j0) = choose|i: int, j: int|
                            0 <= i < j < 256 && (#[trigger] old_children[i]) is Some && (
                            #[trigger] old_children[j]) is Some;
                        assert(children@[i0] is Some && children@[j0] is Some);
                        assert(crate::node::two_children(children@));
                    }
                }
                assert forall|i: int| 0 <= i < 256 implies crate::node::node_digests(*vc, n2)[i]
                    == commitments.deep_view()[i] by {
                    if i == idx {
                        assert(*children@[i]->0 == new_child_g);
                    } else {
                        assert(children@[i] == old_children[i]);
                        assert(commitments@[i] == old_commitments@[i]);
                        assert(old_commitments.deep_view()[i] == crate::node::node_digests(
                            *vc,
                            n0,
                        )[i]);
                    }
                }
                assert(crate::node::node_digests(*vc, n2) =~= commitments.deep_view());
                assert(node_fresh(*vc, n2)) by {
                    assert forall|i: int| 0 <= i < 256 && (#[trigger] children@[i]) is Some
                        implies node_fresh(*vc, *children@[i]->0) by {
                        if i == idx {
                            assert(*children@[i]->0 == new_child_g);
                        } else {
                            assert(children@[i] == old_children[i]);
                        }
                    }
                }
                assert forall|s: Seq<u8>, suf: u8| #[trigger]
                    node_get(n2, depth as int, s, suf) == (if s == stem@ && suf == suffix {
                        Some(value_bytes)
                    } else {
                        node_get(n0, depth as int, s, suf)
                    }) by {
                    if s.len() > depth {
                        let i = s[depth as int] as int;
                        if i == idx {
                            assert(node_get(n2, depth as int, s, suf) == node_get(
                                new_child_g,
                                depth + 1,
                                s,
                                suf,
                            ));
                            if old_children[i] is Some {
                                assert(node_get(n0, depth as int, s, suf) == node_get(
                                    *old_children[i]->0,
                                    depth + 1,
                                    s,
                                    suf,
                                ));
                            } else if !(s == stem@ && suf == suffix) {
                                assert(node_get(new_child_g, depth + 1, s, suf) is None);
                            }
                        } else {
                            assert(children@[i] == old_children[i]);
                            if s == stem@ {
                                assert(i == idx);
                            }
                        }
                    }
                }
            }
            (n2, commitment)
        },
    }
}

/// The proof-generating walk from depth `depth`: one internal step per
/// internal node passed, then the terminal extension step. Returns `None`
/// exactly where the lookup walk finds nothing. The emitted chain starts
/// with this node's own commitment and passes the verifier's checks for
/// the walked key.
fn prove_in_node<V: VectorCommitment>(
    vc: &V,
    n: &Node,
    depth: usize,
    stem: &[u8; 31],
    suffix: u8,
) -> (r: Option<VerkleProof>)
    requires
        depth <= 31,
        node_wf(*n, stem@.take(depth as int)),
        node_fresh(*vc, *n),
    ensures
        match r {
            None => node_get(*n, depth as int, stem@, suffix) is None,
            Some(p) => {
                &&& node_get(*n, depth as int, stem@, suffix) == Some(p.value@)
                &&& steps_ok(*vc, p.steps@, depth as int, key_of(stem@, suffix), p.value@)
                &&& step_commit(p.steps@[0]) == node_commitment(*vc, *n)
            },
        },
    decreases 31 - depth,
{
    let ghost key = key_of(stem@, suffix);
    proof {
        assert(key.take(31) =~= stem@);
        assert(key[31] == suffix);
    }
    match n {
        Node::Extension { stem: estem, slots, slot_commitment } => {
            if !stems_equal(estem, stem) {
                return None;
            }
            match &slots[suffix as usize] {
                None => None,
                Some(v) => {
                    let ext_commit = vc.commit_from_children(slot_commitment);
                    let opened = vc.open_at(slot_commitment, suffix as usize);
                    let value = v.0.clone();
                    let mut steps: Vec<Step> = Vec::new();
                    steps.push(
                        Step::Extension {
                            ext_commit,
                            index: suffix as usize,
                            stem: *estem,
                            opening: opened.1,
                        },
                    );
                    proof {
                        crate::node::lemma_deep_view_bytes(*slot_commitment);
                        let dv = slot_commitment.deep_view();
                        assert(dv == crate::node::ext_digests(slots@));
                        assert(dv[suffix as int] == crate::node::slot_digest(
                            slots@[suffix as int],
                        ));
                        assert(dv[suffix as int] == crate::utils::hash_to_field_of(value@));
                        assert(extension_step_ok(*vc, steps@[0], key, value@));
                        assert(steps_ok(*vc, steps@, depth as int, key, value@));
                    }
                    Some(VerkleProof { steps, value })
                },
            }
        },
        Node::Internal { children, commitments } => {
            let ghost prefix = stem@.take(depth as int);
            let idx = stem[depth] as usize;
            proof {
                assert(stem@.take(depth + 1) =~= prefix.push(stem@[depth as int]));
            }
            match &children[idx] {
                None => None,
                Some(c) => {
                    match prove_in_node(vc, c, depth + 1, stem, suffix) {
                        None => None,
                        Some(p) => {
                            let parent_commit = vc.commit_from_children(commitments);
                            let opened = vc.open_at(commitments, idx);
                            let mut p = p;
                            let ghost old_steps = p.steps@;
                            let step = Step::Internal {
                                parent_commit,
                                index: idx,
                                child_digest: opened.0,
                                opening: opened.1,
                            };
                            let ghost step_g = step;
                            p.steps.insert(0, step);
                            proof {
                                crate::node::lemma_deep_view_bytes(*commitments);
                                let dv = commitments.deep_view();
                                let child = *children@[idx as int]->0;
                                assert(dv == crate::node::node_digests(*vc, *n));
                                assert(dv[idx as int] == crate::utils::hash_to_field_of(
                                    vc.commit_spec(crate::node::node_digests(*vc, child)),
                                ));
                                assert(p.steps@ =~= seq![step_g] + old_steps);
                                assert(p.steps@[0] == step_g);
                                assert(internal_step_ok(*vc, p.steps@[0], depth as int, key));
                                assert(crate::utils::hash_to_field_of(step_commit(old_steps[0]))
                                    == crate::vc::step_child_digest(step_g));
                                assert forall|j: int| 0 <= j < p.steps@.len() - 1
                                    implies internal_step_ok(
                                    *vc,
                                    #[trigger] p.steps@[j],
                                    depth + j,
                                    key,
                                ) by {
                                    if j >= 1 {
                                        assert(p.steps@[j] == old_steps[j - 1]);
                                        assert(internal_step_ok(
                                            *vc,
                                            old_steps[j - 1],
                                            (depth + 1) + (j - 1),
                                            key,
                                        ));
                                    }
                                }
                                assert forall|j: int| 1 <= j < p.steps@.len()
                                    implies crate::utils::hash_to_field_of(
                                    step_commit(#[trigger] p.steps@[j]),
                                ) == crate::vc::step_child_digest(p.steps@[j - 1]) by {
                                    if j >= 2 {
                                        assert(p.steps@[j] == old_steps[j - 1]);
                                        assert(p.steps@[j - 1] == old_steps[j - 2]);
                                    }
                                }
                                assert(p.steps@[p.steps@.len() - 1] == old_steps[old_steps.len()
                                    - 1]);
                                assert(steps_ok(*vc, p.steps@, depth as int, key, p.value@));
                            }
                            Some(p)
                        },
                    }
                },
            }
        },
    }
}

} // verus!
