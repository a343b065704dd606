//! The node model of the tree.
//!
//! A key splits into a 31-byte stem and a one-byte suffix. The stem selects
//! a root-to-leaf path, one byte per depth; the suffix selects a slot
//! inside the terminal extension node. An `Internal` node branches on one
//! stem byte; an `Extension` node stores a whole stem with up to 256
//! values. Alongside its payload every node stores the digest array it was
//! last committed with; the tree keeps these arrays fresh on every write.
//!
//! The ghost model is `node_get` (what a node maps a key to), `node_wf`
//! (shape and placement invariants, including that the tree is in the
//! canonical form insertion produces) and `node_fresh` (the stored digest
//! arrays equal the digests recomputed from the contents).

use vstd::prelude::*;

use crate::utils::{hash_to_field_of, zero_child_spec, zero_value_spec};
use crate::vc::VectorCommitment;

verus! {

/// A stored value: an opaque byte string.
#[derive(PartialEq, Eq, Debug, Clone)]
pub struct Value(pub Vec<u8>);

/// A node of the tree. `commitments` and `slot_commitment` are the digest
/// arrays the node's commitment is computed over (length 256; absent
/// positions hold the zero sentinels).
pub(crate) enum Node {
    Internal { children: Vec<Option<Box<Node>>>, commitments: Vec<Vec<u8>> },
    Extension { stem: [u8; 31], slots: Vec<Option<Value>>, slot_commitment: Vec<Vec<u8>> },
}

/// The payload of an extension node about to be split: its stem and its
/// slot array, detached from the digest bookkeeping.
pub struct ExtensionNode {
    pub stem: [u8; 31],
    pub slots: Vec<Option<Value>>,
}

/// The full key as the ghost model sees it: stem then suffix, 32 bytes.
pub open spec fn key_of(stem: Seq<u8>, suffix: u8) -> Seq<u8> {
    stem.push(suffix)
}

/// What an extension's slot array yields for a suffix.
pub open spec fn ext_slots_get(slots: Seq<Option<Value>>, suffix: u8) -> Option<Seq<u8>> {
    if suffix < slots.len() && slots[suffix as int] is Some {
        Some((slots[suffix as int]->0).0@)
    } else {
        None
    }
}

/// What a node maps `(stem, suffix)` to, walking from depth `depth`.
/// Mirrors the lookup walk: an internal node consumes the stem byte at the
/// current depth; an extension node requires its whole stem to match and
/// then reads the suffix slot.
pub(crate) open spec fn node_get(n: Node, depth: int, stem: Seq<u8>, suffix: u8) -> Option<
    Seq<u8>,
>
    decreases n,
{
    match n {
        Node::Extension { stem: s, slots, .. } => {
            if s@ == stem {
                ext_slots_get(slots@, suffix)
            } else {
                None
            }
        },
        Node::Internal { children, .. } => {
            if 0 <= depth < 31 && depth < stem.len() {
                let idx = stem[depth] as int;
                if idx < children@.len() && children@[idx] is Some {
                    node_get(*children@[idx]->0, depth + 1, stem, suffix)
                } else {
                    None
                }
            } else {
                None
            }
        },
    }
}

/// Two distinct occupied branches.
pub(crate) open spec fn two_children(s: Seq<Option<Box<Node>>>) -> bool {
    exists|i: int, j: int|
        0 <= i < j < s.len() && (#[trigger] s[i]) is Some && (#[trigger] s[j]) is Some
}

/// Well-formedness of the node found at path `prefix`:
/// - arrays have length 256 and an extension's stem extends the path;
/// - internal nodes appear only above depth 31;
/// - every node holds something: an extension has an occupied slot, an
///   internal node an occupied branch;
/// - an internal node with a single occupied branch is a link in a split
///   chain, so that branch holds an internal node. Together these make the
///   shape of the tree a function of its contents.
pub(crate) open spec fn node_wf(n: Node, prefix: Seq<u8>) -> bool
    decreases n,
{
    match n {
        Node::Extension { stem, slots, slot_commitment } => {
            &&& prefix.len() <= 31
            &&& stem@.take(prefix.len() as int) == prefix
            &&& slots@.len() == 256
            &&& slot_commitment@.len() == 256
            &&& exists|i: int| 0 <= i < 256 && (#[trigger] slots@[i]) is Some
        },
        Node::Internal { children, commitments } => {
            &&& prefix.len() < 31
            &&& children@.len() == 256
            &&& commitments@.len() == 256
            &&& exists|i: int| 0 <= i < 256 && (#[trigger] children@[i]) is Some
            &&& (two_children(children@) || (forall|i: int|
                0 <= i < 256 && (#[trigger] children@[i]) is Some ==> (*children@[i]->0)
                    is Internal))
            &&& forall|i: int|
                0 <= i < 256 && (#[trigger] children@[i]) is Some ==> node_wf(
                    *children@[i]->0,
                    prefix.push(i as u8),
                )
        },
    }
}

/// The digest of one suffix slot: the hash of the value bytes, or the
/// empty-slot sentinel.
pub open spec fn slot_digest(s: Option<Value>) -> Seq<u8> {
    match s {
        Some(v) => hash_to_field_of(v.0@),
        None => zero_value_spec(),
    }
}

/// The digest array of an extension's slot array.
pub open spec fn ext_digests(slots: Seq<Option<Value>>) -> Seq<Seq<u8>> {
    Seq::new(slots.len(), |i: int| slot_digest(slots[i]))
}

/// The digest array a node's commitment is computed over, recomputed from
/// its contents: hashes of child commitments (internal) or of value bytes
/// (extension), with the zero sentinels in absent positions.
pub(crate) open spec fn node_digests<V: VectorCommitment>(vc: V, n: Node) -> Seq<Seq<u8>>
    decreases n,
{
    match n {
        Node::Extension { slots, .. } => ext_digests(slots@),
        Node::Internal { children, .. } => Seq::new(
            children@.len(),
            |i: int|
                if 0 <= i < children@.len() && children@[i] is Some {
                    hash_to_field_of(vc.commit_spec(node_digests(vc, *children@[i]->0)))
                } else {
                    zero_child_spec()
                },
        ),
    }
}

/// A node's commitment: the vector commitment over its digest array.
pub(crate) open spec fn node_commitment<V: VectorCommitment>(vc: V, n: Node) -> Seq<u8> {
    vc.commit_spec(node_digests(vc, n))
}

/// The digest array a node currently stores.
pub(crate) open spec fn stored_digests(n: Node) -> Seq<Seq<u8>> {
    match n {
        Node::Internal { commitments, .. } => commitments.deep_view(),
        Node::Extension { slot_commitment, .. } => slot_commitment.deep_view(),
    }
}

/// Every digest array in the subtree equals the digests of its contents.
pub(crate) open spec fn node_fresh<V: VectorCommitment>(vc: V, n: Node) -> bool
    decreases n,
{
    &&& stored_digests(n) == node_digests(vc, n)
    &&& match n {
        Node::Internal { children, .. } => forall|i: int|
            0 <= i < children@.len() && (#[trigger] children@[i]) is Some ==> node_fresh(
                vc,
                *children@[i]->0,
            ),
        Node::Extension { .. } => true,
    }
}

/// Splits a key into its 31-byte stem and one-byte suffix.
pub fn split_key(key: [u8; 32]) -> (r: ([u8; 31], u8))
    ensures
        r.0@ == key@.take(31),
        r.1 == key@[31],
{
    let mut stem: [u8; 31] = [0u8; 31];
    let mut i: usize = 0;
    while i < 31
        invariant
            i <= 31,
            forall|j: int| 0 <= j < i ==> stem@[j] == key@[j],
        decreases 31 - i,
    {
        stem[i] = key[i];
        i = i + 1;
    }
    proof {
        assert(stem@ =~= key@.take(31));
    }
    (stem, key[31])
}

/// The first position at which two stems differ; 31 when they are equal.
pub fn first_diff_index(old_stem: [u8; 31], new_stem: [u8; 31]) -> (d: usize)
    ensures
        d <= 31,
        forall|j: int| 0 <= j < d ==> old_stem@[j] == new_stem@[j],
        d < 31 ==> old_stem@[d as int] != new_stem@[d as int],
        d == 31 ==> old_stem@ == new_stem@,
{
    let mut i: usize = 0;
    while i < 31
        invariant
            i <= 31,
            forall|j: int| 0 <= j < i ==> old_stem@[j] == new_stem@[j],
        decreases 31 - i,
    {
        if old_stem[i] != new_stem[i] {
            return i;
        }
        i = i + 1;
    }
    proof {
        assert(old_stem@ =~= new_stem@);
    }
    31
}

/// Byte-for-byte stem equality.
pub(crate) fn stems_equal(a: &[u8; 31], b: &[u8; 31]) -> (r: bool)
    ensures
        r == (a@ == b@),
{
    let d = first_diff_index(*a, *b);
    proof {
        if d < 31 {
            assert(a@[d as int] != b@[d as int]);
        }
    }
    d == 31
}

/// `deep_view` of a vector of byte vectors is the sequence of their views.
pub(crate) proof fn lemma_deep_view_bytes(v: Vec<Vec<u8>>)
    ensures
        v.deep_view().len() == v@.len(),
        forall|i: int| 0 <= i < v@.len() ==> v.deep_view()[i] == (#[trigger] v@[i])@,
{
    assert forall|i: int| 0 <= i < v@.len() implies v.deep_view()[i] == (#[trigger] v@[i])@ by {
        assert(v@[i].deep_view() =~= v@[i]@);
    }
}

/// 256 empty branches.
pub(crate) fn empty_children() -> (r: Vec<Option<Box<Node>>>)
    ensures
        r@.len() == 256,
        forall|i: int| 0 <= i < 256 ==> (#[trigger] r@[i]) is None,
{
    let mut r: Vec<Option<Box<Node>>> = Vec::new();
    let mut i: usize = 0;
    while i < 256
        invariant
            i == r@.len(),
            i <= 256,
            forall|j: int| 0 <= j < i ==> (#[trigger] r@[j]) is None,
        decreases 256 - i,
    {
        r.push(None);
        i += 1;
    }
    r
}

/// The digest array of an internal node with no children yet: the
/// `ZERO_CHILD` sentinel in every position.
pub(crate) fn zero_child_digest_array() -> (r: Vec<Vec<u8>>)
    ensures
        r@.len() == 256,
        r.deep_view() == Seq::new(256, |i: int| zero_child_spec()),
{
    let mut r: Vec<Vec<u8>> = Vec::new();
    let mut i: usize = 0;
    while i < 256
        invariant
            i == r@.len(),
            i <= 256,
            forall|j: int| 0 <= j < i ==> (#[trigger] r@[j])@ == zero_child_spec(),
        decreases 256 - i,
    {
        r.push(crate::utils::zero_child());
        i += 1;
    }
    proof {
        lemma_deep_view_bytes(r);
        assert(r.deep_view() =~~= Seq::new(256, |i: int| zero_child_spec()));
    }
    r
}

/// A slot array holding a single value at `suffix`.
pub(crate) fn singleton_slots(suffix: u8, value: Value) -> (r: Vec<Option<Value>>)
    ensures
        r@.len() == 256,
        r@[suffix as int] == Some(value),
        forall|i: int| 0 <= i < 256 && i != suffix ==> (#[trigger] r@[i]) is None,
{
    let mut r: Vec<Option<Value>> = Vec::new();
    let mut i: usize = 0;
    while i < 256
        invariant
            i == r@.len(),
            i <= 256,
            forall|j: int| 0 <= j < i ==> (#[trigger] r@[j]) is None,
        decreases 256 - i,
    {
        r.push(None);
        i += 1;
    }
    r[suffix as usize] = Some(value);
    r
}

/// Recomputes an extension's digest array from its slots: the hash of each
/// value, the `ZERO_VALUE` sentinel where a slot is empty.
pub(crate) fn ext_digest_array(slots: &Vec<Option<Value>>) -> (r: Vec<Vec<u8>>)
    requires
        slots@.len() == 256,
    ensures
        r@.len() == 256,
        r.deep_view() == ext_digests(slots@),
{
    let mut r: Vec<Vec<u8>> = Vec::new();
    let mut i: usize = 0;
    while i < 256
        invariant
            i == r@.len(),
            i <= 256,
            slots@.len() == 256,
            forall|j: int| 0 <= j < i ==> (#[trigger] r@[j])@ == slot_digest(slots@[j]),
        decreases 256 - i,
    {
        let d = match &slots[i] {
            Some(v) => crate::utils::hash_to_field(v.0.as_slice()),
            None => crate::utils::zero_value(),
        };
        r.push(d);
        i += 1;
    }
    proof {
        lemma_deep_view_bytes(r);
        assert(r.deep_view() =~~= ext_digests(slots@));
    }
    r
}

/// Builds a committed extension node at path `prefix` from a stem and a
/// slot array, returning the node and its commitment.
pub(crate) fn make_extension<V: VectorCommitment>(
    vc: &V,
    stem: [u8; 31],
    slots: Vec<Option<Value>>,
    Ghost(prefix): Ghost<Seq<u8>>,
) -> (r: (Node, Vec<u8>))
    requires
        slots@.len() == 256,
        exists|i: int| 0 <= i < 256 && (#[trigger] slots@[i]) is Some,
        prefix.len() <= 31,
        stem@.take(prefix.len() as int) == prefix,
    ensures
        r.0 is Extension,
        node_wf(r.0, prefix),
        node_fresh(*vc, r.0),
        r.1@ == node_commitment(*vc, r.0),
        forall|depth: int, s: Seq<u8>, suf: u8| #[trigger]
            node_get(r.0, depth, s, suf) == (if s == stem@ {
                ext_slots_get(slots@, suf)
            } else {
                None
            }),
{
    let slot_commitment = ext_digest_array(&slots);
    let commitment = vc.commit_from_children(&slot_commitment);
    let n = Node::Extension { stem, slots, slot_commitment };
    (n, commitment)
}

/// A lookup whose stem does not extend the node's path finds nothing.
pub(crate) proof fn lemma_node_get_outside_prefix(
    n: Node,
    prefix: Seq<u8>,
    stem: Seq<u8>,
    suffix: u8,
)
    requires
        node_wf(n, prefix),
        stem.len() == 31,
        stem.take(prefix.len() as int) != prefix,
    ensures
        node_get(n, prefix.len() as int, stem, suffix) is None,
    decreases n,
{
    let d = prefix.len() as int;
    match n {
        Node::Extension { stem: estem, .. } => {
            if estem@ == stem {
                assert(stem.take(d) == prefix);
            }
        },
        Node::Internal { children, .. } => {
            if 0 <= d < 31 {
                let idx = stem[d] as int;
                if 0 <= idx < children@.len() && children@[idx] is Some {
                    let child = *children@[idx]->0;
                    assert(node_wf(child, prefix.push(idx as u8)));
                    if stem.take(d + 1) == prefix.push(idx as u8) {
                        assert(stem.take(d) =~= stem.take(d + 1).take(d));
                        assert(prefix =~= prefix.push(idx as u8).take(d));
                        assert(false);
                    }
                    lemma_node_get_outside_prefix(child, prefix.push(idx as u8), stem, suffix);
                }
            }
        },
    }
}

/// A well-formed node holds at least one key, and its stem extends the
/// node's path.
pub(crate) proof fn lemma_node_nonempty(n: Node, prefix: Seq<u8>)
    requires
        node_wf(n, prefix),
    ensures
        exists|stem: Seq<u8>, suffix: u8|
            stem.len() == 31 && stem.take(prefix.len() as int) == prefix && (#[trigger] node_get(
                n,
                prefix.len() as int,
                stem,
                suffix,
            )) is Some,
    decreases n,
{
    let d = prefix.len() as int;
    match n {
        Node::Extension { stem: estem, slots, .. } => {
            let i = choose|i: int| 0 <= i < 256 && (#[trigger] slots@[i]) is Some;
            let suffix = i as u8;
            assert(slots@[suffix as int] is Some);
            assert(node_get(n, d, estem@, suffix) is Some);
            assert(estem@.len() == 31 && estem@.take(d) == prefix);
        },
        Node::Internal { children, .. } => {
            let i = choose|i: int| 0 <= i < 256 && (#[trigger] children@[i]) is Some;
            let child = *children@[i]->0;
            let cprefix = prefix.push(i as u8);
            assert(node_wf(child, cprefix));
            lemma_node_nonempty(child, cprefix);
            let (stem, suffix) = choose|stem: Seq<u8>, suffix: u8|
                stem.len() == 31 && stem.take(cprefix.len() as int) == cprefix && (#[trigger]
                node_get(child, cprefix.len() as int, stem, suffix)) is Some;
            assert(stem[d] == cprefix[d] == i as u8) by {
                assert(stem.take(d + 1)[d] == stem[d]);
            }
            assert(stem.take(d) =~= stem.take(d + 1).take(d));
            assert(prefix =~= cprefix.take(d));
            assert(stem.take(d) == prefix);
            assert(node_get(n, d, stem, suffix) == node_get(child, d + 1, stem, suffix));
            assert(node_get(n, d, stem, suffix) is Some);
        },
    }
}

/// A well-formed internal node holds two keys with distinct stems.
pub(crate) proof fn lemma_internal_two_stems(n: Node, prefix: Seq<u8>)
    requires
        node_wf(n, prefix),
        n is Internal,
    ensures
        exists|s1: Seq<u8>, suf1: u8, s2: Seq<u8>, suf2: u8|
            s1.len() == 31 && s2.len() == 31 && s1 != s2 && (#[trigger] node_get(
                n,
                prefix.len() as int,
                s1,
                suf1,
            )) is Some && (#[trigger] node_get(n, prefix.len() as int, s2, suf2)) is Some,
    decreases n,
{
    let d = prefix.len() as int;
    match n {
        Node::Internal { children, .. } => {
            if two_children(children@) {
                let (i, j) = choose|i: int, j: int|
                    0 <= i < j < 256 && (#[trigger] children@[i]) is Some && (#[trigger]
                    children@[j]) is Some;
                let ci = *children@[i]->0;
                let cj = *children@[j]->0;
                lemma_node_nonempty(ci, prefix.push(i as u8));
                lemma_node_nonempty(cj, prefix.push(j as u8));
                let (s1, suf1) = choose|stem: Seq<u8>, suffix: u8|
                    stem.len() == 31 && stem.take(d + 1) == prefix.push(i as u8) && (#[trigger]
                    node_get(ci, d + 1, stem, suffix)) is Some;
                let (s2, suf2) = choose|stem: Seq<u8>, suffix: u8|
                    stem.len() == 31 && stem.take(d + 1) == prefix.push(j as u8) && (#[trigger]
                    node_get(cj, d + 1, stem, suffix)) is Some;
                assert(s1[d] == i as u8) by {
                    assert(s1.take(d + 1)[d] == s1[d]);
                }
                assert(s2[d] == j as u8) by {
                    assert(s2.take(d + 1)[d] == s2[d]);
                }
                assert(s1 != s2);
                assert(node_get(n, d, s1, suf1) == node_get(ci, d + 1, s1, suf1));
                assert(node_get(n, d, s2, suf2) == node_get(cj, d + 1, s2, suf2));
                assert(node_get(n, d, s1, suf1) is Some && node_get(n, d, s2, suf2) is Some);
            } else {
                let i = choose|i: int| 0 <= i < 256 && (#[trigger] children@[i]) is Some;
                let child = *children@[i]->0;
                let cprefix = prefix.push(i as u8);
                assert(child is Internal);
                assert(node_wf(child, cprefix));
                lemma_internal_two_stems(child, cprefix);
                let (s1, suf1, s2, suf2) = choose|
                    s1: Seq<u8>,
                    suf1: u8,
                    s2: Seq<u8>,
                    suf2: u8,
                |
                    s1.len() == 31 && s2.len() == 31 && s1 != s2 && (#[trigger] node_get(
                        child,
                        d + 1,
                        s1,
                        suf1,
                    )) is Some && (#[trigger] node_get(child, d + 1, s2, suf2)) is Some;
                assert(s1.take(d + 1) == cprefix && s2.take(d + 1) == cprefix) by {
                    if s1.take(d + 1) != cprefix {
                        lemma_node_get_outside_prefix(child, cprefix, s1, suf1);
                    }
                    if s2.take(d + 1) != cprefix {
                        lemma_node_get_outside_prefix(child, cprefix, s2, suf2);
                    }
                }
                assert(s1[d] == i as u8) by {
                    assert(s1.take(d + 1)[d] == s1[d]);
                }
                assert(s2[d] == i as u8) by {
                    assert(s2.take(d + 1)[d] == s2[d]);
                }
                assert(node_get(n, d, s1, suf1) == node_get(child, d + 1, s1, suf1));
                assert(node_get(n, d, s2, suf2) == node_get(child, d + 1, s2, suf2));
                assert(node_get(n, d, s1, suf1) is Some && node_get(n, d, s2, suf2) is Some);
            }
        },
        Node::Extension { .. } => {},
    }
}

/// Two well-formed nodes at the same path holding the same keys have the
/// same digest arrays, and so the same commitment: the canonical-form
/// invariants leave only one shape for a given content.
pub(crate) proof fn lemma_node_determined<V: VectorCommitment>(
    vc: V,
    n1: Node,
    n2: Node,
    prefix: Seq<u8>,
)
    requires
        node_wf(n1, prefix),
        node_wf(n2, prefix),
        forall|stem: Seq<u8>, suffix: u8|
            stem.len() == 31 ==> (#[trigger] node_get(n1, prefix.len() as int, stem, suffix))
                == node_get(n2, prefix.len() as int, stem, suffix),
    ensures
        node_digests(vc, n1) == node_digests(vc, n2),
    decreases n1, 1int,
{
    let d = prefix.len() as int;
    match (n1, n2) {
        (
            Node::Extension { stem: e1, slots: slots1, .. },
            Node::Extension { stem: e2, slots: slots2, .. },
        ) => {
            let i = choose|i: int| 0 <= i < 256 && (#[trigger] slots1@[i]) is Some;
            assert(node_get(n1, d, e1@, i as u8) is Some);
            assert(node_get(n2, d, e1@, i as u8) is Some);
            assert(e2@ == e1@);
            assert forall|s: int| 0 <= s < 256 implies slot_digest(slots1@[s]) == slot_digest(
                slots2@[s],
            ) by {
                let suf = s as u8;
                assert(node_get(n1, d, e1@, suf) == node_get(n2, d, e2@, suf));
                assert(ext_slots_get(slots1@, suf) == ext_slots_get(slots2@, suf));
                if slots1@[s] is Some {
                    assert(ext_slots_get(slots1@, suf) == Some((slots1@[s]->0).0@));
                    assert(slots2@[s] is Some);
                    assert((slots1@[s]->0).0@ == (slots2@[s]->0).0@);
                } else {
                    assert(ext_slots_get(slots1@, suf) is None);
                    assert(slots2@[s] is None);
                }
            }
            assert(node_digests(vc, n1) =~= node_digests(vc, n2));
        },
        (Node::Extension { stem: e1, .. }, Node::Internal { .. }) => {
            lemma_internal_two_stems(n2, prefix);
            let (s1, suf1, s2, suf2) = choose|s1: Seq<u8>, suf1: u8, s2: Seq<u8>, suf2: u8|
                s1.len() == 31 && s2.len() == 31 && s1 != s2 && (#[trigger] node_get(
                    n2,
                    d,
                    s1,
                    suf1,
                )) is Some && (#[trigger] node_get(n2, d, s2, suf2)) is Some;
            assert(node_get(n1, d, s1, suf1) is Some && node_get(n1, d, s2, suf2) is Some);
            assert(s1 == e1@ && s2 == e1@);
            assert(false);
        },
        (Node::Internal { .. }, Node::Extension { stem: e2, .. }) => {
            lemma_internal_two_stems(n1, prefix);
            let (s1, suf1, s2, suf2) = choose|s1: Seq<u8>, suf1: u8, s2: Seq<u8>, suf2: u8|
                s1.len() == 31 && s2.len() == 31 && s1 != s2 && (#[trigger] node_get(
                    n1,
                    d,
                    s1,
                    suf1,
                )) is Some && (#[trigger] node_get(n1, d, s2, suf2)) is Some;
            assert(node_get(n2, d, s1, suf1) is Some && node_get(n2, d, s2, suf2) is Some);
            assert(s1 == e2@ && s2 == e2@);
            assert(false);
        },
        (
            Node::Internal { children: c1, .. },
            Node::Internal { children: c2, .. },
        ) => {
            assert forall|i: int| 0 <= i < 256 implies node_digests(vc, n1)[i] == node_digests(
                vc,
                n2,
            )[i] by {
                lemma_internal_children_agree(vc, n1, n2, prefix, i);
            }
            assert(node_digests(vc, n1) =~= node_digests(vc, n2));
        },
    }
}

/// One branch of the internal/internal case: branch `i` of two equivalent
/// internal nodes is occupied on both sides or neither, and when occupied
/// the children are again equivalent, so their digests agree.
proof fn lemma_internal_children_agree<V: VectorCommitment>(
    vc: V,
    n1: Node,
    n2: Node,
    prefix: Seq<u8>,
    i: int,
)
    requires
        node_wf(n1, prefix),
        node_wf(n2, prefix),
        n1 is Internal,
        n2 is Internal,
        0 <= i < 256,
        forall|stem: Seq<u8>, suffix: u8|
            stem.len() == 31 ==> (#[trigger] node_get(n1, prefix.len() as int, stem, suffix))
                == node_get(n2, prefix.len() as int, stem, suffix),
    ensures
        node_digests(vc, n1)[i] == node_digests(vc, n2)[i],
    decreases n1, 0int,
{
    let d = prefix.len() as int;
    match (n1, n2) {
        (
            Node::Internal { children: c1, .. },
            Node::Internal { children: c2, .. },
        ) => {
            let cprefix = prefix.push(i as u8);
            if c1@[i] is Some && c2@[i] is None {
                let ch = *c1@[i]->0;
                lemma_node_nonempty(ch, cprefix);
                let (stem, suffix) = choose|stem: Seq<u8>, suffix: u8|
                    stem.len() == 31 && stem.take(d + 1) == cprefix && (#[trigger] node_get(
                        ch,
                        d + 1,
                        stem,
                        suffix,
                    )) is Some;
                assert(stem[d] == i as u8) by {
                    assert(stem.take(d + 1)[d] == stem[d]);
                }
                assert(node_get(n1, d, stem, suffix) == node_get(ch, d + 1, stem, suffix));
                assert(node_get(n2, d, stem, suffix) is None);
                assert(false);
            } else if c1@[i] is None && c2@[i] is Some {
                let ch = *c2@[i]->0;
                lemma_node_nonempty(ch, cprefix);
                let (stem, suffix) = choose|stem: Seq<u8>, suffix: u8|
                    stem.len() == 31 && stem.take(d + 1) == cprefix && (#[trigger] node_get(
                        ch,
                        d + 1,
                        stem,
                        suffix,
                    )) is Some;
                assert(stem[d] == i as u8) by {
                    assert(stem.take(d + 1)[d] == stem[d]);
                }
                assert(node_get(n2, d, stem, suffix) == node_get(ch, d + 1, stem, suffix));
                assert(node_get(n1, d, stem, suffix) is None);
                assert(false);
            } else if c1@[i] is Some && c2@[i] is Some {
                let ch1 = *c1@[i]->0;
                let ch2 = *c2@[i]->0;
                assert(node_wf(ch1, cprefix) && node_wf(ch2, cprefix));
                assert forall|stem: Seq<u8>, suffix: u8| stem.len() == 31 implies (#[trigger]
                node_get(ch1, d + 1, stem, suffix)) == node_get(ch2, d + 1, stem, suffix) by {
                    if stem[d] == i as u8 {
                        assert(node_get(n1, d, stem, suffix) == node_get(ch1, d + 1, stem, suffix));
                        assert(node_get(n2, d, stem, suffix) == node_get(ch2, d + 1, stem, suffix));
                    } else {
                        assert(stem.take(d + 1)[d] == stem[d]);
                        assert(stem.take(d + 1) != cprefix);
                        lemma_node_get_outside_prefix(ch1, cprefix, stem, suffix);
                        lemma_node_get_outside_prefix(ch2, cprefix, stem, suffix);
                    }
                }
                lemma_node_determined(vc, ch1, ch2, cprefix);
            }
        },
        _ => {},
    }
}

/// Replaces an extension whose stem disagrees with an incoming key: builds
/// the chain of internal links from `start_depth` down to the first byte
/// where the two stems differ, forks there into the old extension and a
/// fresh extension for the new stem, and writes the incoming value into
/// the fresh extension's suffix slot. Returns the committed subtree and
/// its commitment.
pub(crate) fn split_extension<V: VectorCommitment>(
    vc: &V,
    start_depth: usize,
    old_ext: ExtensionNode,
    new_stem: [u8; 31],
    suffix: u8,
    value: Value,
) -> (r: (Node, Vec<u8>))
    requires
        old_ext.slots@.len() == 256,
        exists|i: int| 0 <= i < 256 && (#[trigger] old_ext.slots@[i]) is Some,
        old_ext.stem@ != new_stem@,
        start_depth <= 31,
        old_ext.stem@.take(start_depth as int) == new_stem@.take(start_depth as int),
    ensures
        r.0 is Internal,
        node_wf(r.0, new_stem@.take(start_depth as int)),
        node_fresh(*vc, r.0),
        r.1@ == node_commitment(*vc, r.0),
        forall|s: Seq<u8>, suf: u8| #[trigger]
            node_get(r.0, start_depth as int, s, suf) == (if s == new_stem@ && suf == suffix {
                Some(value.0@)
            } else if s == old_ext.stem@ {
                ext_slots_get(old_ext.slots@, suf)
            } else {
                None
            }),
    decreases 31 - start_depth,
{
    let d = first_diff_index(old_ext.stem, new_stem);
    proof {
        if d == 31 {
            assert(old_ext.stem@ =~= new_stem@);
        }
        assert(d < 31);
        if d < start_depth {
            assert(old_ext.stem@.take(start_depth as int)[d as int] == old_ext.stem@[d as int]);
            assert(new_stem@.take(start_depth as int)[d as int] == new_stem@[d as int]);
        }
        assert(start_depth <= d);
    }
    let ghost prefix = new_stem@.take(start_depth as int);
    if start_depth == d {
        let old_idx = old_ext.stem[d] as usize;
        let new_idx = new_stem[d] as usize;
        let old_stem = old_ext.stem;
        let ghost old_slots = old_ext.slots@;
        proof {
            assert(old_ext.stem@[d as int] != new_stem@[d as int]);
            assert(old_idx != new_idx);
            assert(old_stem@.take(d + 1) =~= prefix.push(old_stem@[d as int]));
            assert(new_stem@.take(d + 1) =~= prefix.push(new_stem@[d as int]));
        }
        let (old_node, old_commit) = make_extension(
            vc,
            old_stem,
            old_ext.slots,
            Ghost(old_stem@.take(d + 1)),
        );
        let fresh_slots = singleton_slots(suffix, value);
        proof {
            assert(fresh_slots@[suffix as int] is Some);
        }
        let (new_node, new_commit) = make_extension(
            vc,
            new_stem,
            fresh_slots,
            Ghost(new_stem@.take(d + 1)),
        );
        let mut children = empty_children();
        let mut commitments = zero_child_digest_array();
        let ghost zeros_g = commitments;
        let ghost old_node_g = old_node;
        let ghost new_node_g = new_node;
        children[old_idx] = Some(Box::new(old_node));
        children[new_idx] = Some(Box::new(new_node));
        commitments[old_idx] = crate::utils::digest_commit(&old_commit);
        commitments[new_idx] = crate::utils::digest_commit(&new_commit);
        let commitment = vc.commit_from_children(&commitments);
        let n = Node::Internal { children, commitments };
        proof {
            lemma_deep_view_bytes(commitments);
            lemma_deep_view_bytes(zeros_g);
            assert forall|i: int| 0 <= i < 256 implies node_digests(*vc, n)[i]
                == commitments.deep_view()[i] by {
                if i == old_idx {
                    assert(*children@[i]->0 == old_node_g);
                } else if i == new_idx {
                    assert(*children@[i]->0 == new_node_g);
                } else {
                    assert(commitments@[i] == zeros_g@[i]);
                    assert(zeros_g.deep_view()[i] == zero_child_spec());
                }
            }
            assert(node_digests(*vc, n) =~= commitments.deep_view());
            assert(node_wf(n, prefix)) by {
                let i0: int = if old_idx < new_idx { old_idx as int } else { new_idx as int };
                let j0: int = if old_idx < new_idx { new_idx as int } else { old_idx as int };
                assert(0 <= i0 < j0 < 256 && children@[i0] is Some && children@[j0] is Some);
                assert(two_children(children@));
                assert forall|i: int| 0 <= i < 256 && (#[trigger] children@[i]) is Some
                    implies node_wf(*children@[i]->0, prefix.push(i as u8)) by {
                    if i == old_idx {
                        assert(*children@[i]->0 == old_node_g);
                    } else {
                        assert(*children@[i]->0 == new_node_g);
                    }
                }
            }
            assert forall|s: Seq<u8>, suf: u8| #[trigger]
                node_get(n, start_depth as int, s, suf) == (if s == new_stem@ && suf == suffix {
                    Some(value.0@)
                } else if s == old_ext.stem@ {
                    ext_slots_get(old_slots, suf)
                } else {
                    None
                }) by {
                if s.len() > d {
                    if s[d as int] == old_idx {
                        assert(node_get(n, start_depth as int, s, suf) == node_get(
                            old_node_g,
                            d + 1,
                            s,
                            suf,
                        ));
                    } else if s[d as int] == new_idx {
                        assert(node_get(n, start_depth as int, s, suf) == node_get(
                            new_node_g,
                            d + 1,
                            s,
                            suf,
                        ));
                    }
                }
                if s == new_stem@ && suf != suffix {
                    assert(ext_slots_get(fresh_slots@, suf) is None);
                }
                if s == old_ext.stem@ {
                    assert(s[d as int] == old_idx);
                }
                if s == new_stem@ {
                    assert(s[d as int] == new_idx);
                }
            }
        }
        (n, commitment)
    } else {
        proof {
            assert(old_ext.stem@.take(start_depth + 1) =~= new_stem@.take(start_depth + 1));
        }
        let ghost old_stem_g = old_ext.stem@;
        let ghost old_slots = old_ext.slots@;
        let (child, child_commit) = split_extension(
            vc,
            start_depth + 1,
            old_ext,
            new_stem,
            suffix,
            value,
        );
        let idx = new_stem[start_depth] as usize;
        let mut children = empty_children();
        let mut commitments = zero_child_digest_array();
        let ghost zeros_g = commitments;
        let ghost child_g = child;
        children[idx] = Some(Box::new(child));
        commitments[idx] = crate::utils::digest_commit(&child_commit);
        let commitment = vc.commit_from_children(&commitments);
        let n = Node::Internal { children, commitments };
        proof {
            lemma_deep_view_bytes(commitments);
            lemma_deep_view_bytes(zeros_g);
            assert forall|i: int| 0 <= i < 256 implies node_digests(*vc, n)[i]
                == commitments.deep_view()[i] by {
                if i == idx {
                    assert(*children@[i]->0 == child_g);
                } else {
                    assert(commitments@[i] == zeros_g@[i]);
                    assert(zeros_g.deep_view()[i] == zero_child_spec());
                }
            }
            assert(node_digests(*vc, n) =~= commitments.deep_view());
            assert(node_wf(n, prefix)) by {
                assert(new_stem@.take(start_depth + 1) =~= prefix.push(new_stem@[start_depth as int]));
                assert forall|i: int| 0 <= i < 256 && (#[trigger] children@[i]) is Some
                    implies node_wf(*children@[i]->0, prefix.push(i as u8)) && (*children@[i]->0)
                    is Internal by {
                    assert(i == idx);
                    assert(*children@[i]->0 == child_g);
                }
            }
            assert forall|s: Seq<u8>, suf: u8| #[trigger]
                node_get(n, start_depth as int, s, suf) == (if s == new_stem@ && suf == suffix {
                    Some(value.0@)
                } else if s == old_stem_g {
                    ext_slots_get(old_slots, suf)
                } else {
                    None
                }) by {
                if s.len() > start_depth && s[start_depth as int] == idx {
                    assert(node_get(n, start_depth as int, s, suf) == node_get(
                        child_g,
                        start_depth + 1,
                        s,
                        suf,
                    ));
                }
                if s == new_stem@ {
                    assert(s[start_depth as int] == idx);
                }
                if s == old_stem_g {
                    assert(s[start_depth as int] == old_stem_g[start_depth as int]
                        == new_stem@[start_depth as int]);
                }
            }
        }
        (n, commitment)
    }
}

} // verus!
