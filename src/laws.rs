use vstd::prelude::*;
use crate::node::BstNodeLink;
use crate::tree::{BstTree, strictly_increasing};

verus! {

/// In every well-formed tree, and so in every tree that insertions and
/// deletions produce, the in-order traversal yields strictly increasing keys:
/// each node's key exceeds every key of its left subtree and is below every
/// key of its right subtree, and no key occurs twice.
pub proof fn lemma_ordering_invariant(t: BstTree)
    requires
        t.wf(),
    ensures
        strictly_increasing(t.view()),
        forall|i: BstNodeLink, k: i32|
            t.is_member(i) && t.arena()[i as int].left is Some && #[trigger] t.subtree_keys(
                t.arena()[i as int].left.unwrap(),
            ).contains(k) ==> k < t.key_of(i),
        forall|i: BstNodeLink, k: i32|
            t.is_member(i) && t.arena()[i as int].right is Some && #[trigger] t.subtree_keys(
                t.arena()[i as int].right.unwrap(),
            ).contains(k) ==> k > t.key_of(i),
{
    assert forall|a: int, b: int| 0 <= a < b < t.view().len() implies t.view()[a] < t.view()[b] by {
        t.lemma_sorted(a, b);
    }
    assert forall|i: BstNodeLink, k: i32|
        t.is_member(i) && t.arena()[i as int].left is Some && #[trigger] t.subtree_keys(
            t.arena()[i as int].left.unwrap(),
        ).contains(k) implies k < t.key_of(i) by {
        t.lemma_member(i);
        let l = t.arena()[i as int].left.unwrap();
        let j = choose|j: int| 0 <= j < t.subtree_keys(l).len() && t.subtree_keys(l)[j] == k;
        t.lemma_sorted(t.lo@[l] + j, t.pos@[i]);
        t.lemma_order(t.pos@[i]);
    }
    assert forall|i: BstNodeLink, k: i32|
        t.is_member(i) && t.arena()[i as int].right is Some && #[trigger] t.subtree_keys(
            t.arena()[i as int].right.unwrap(),
        ).contains(k) implies k > t.key_of(i) by {
        t.lemma_member(i);
        let r = t.arena()[i as int].right.unwrap();
        let j = choose|j: int| 0 <= j < t.subtree_keys(r).len() && t.subtree_keys(r)[j] == k;
        t.lemma_sorted(t.pos@[i], t.lo@[r] + j);
        t.lemma_order(t.pos@[i]);
    }
}

/// After an insertion of `key`, whether it was new or already present, a
/// search from the root finds it.
pub proof fn lemma_insert_then_search(before: BstTree, after: BstTree, key: i32)
    requires
        before.wf(),
        after.wf(),
        before.view().contains(key) ==> after == before,
        !before.view().contains(key) ==> exists|q: int|
            0 <= q <= before.view().len() && after.view() == before.view().insert(q, key),
    ensures
        after.root_link() matches Some(r) && after.subtree_keys(r).contains(key),
{
    after.lemma_root();
    if !before.view().contains(key) {
        let q = choose|q: int|
            0 <= q <= before.view().len() && after.view() == before.view().insert(q, key);
        assert(after.view()[q] == key);
    }
    let r = after.root_link().unwrap();
    assert(after.subtree_keys(r) =~= after.view());
}

/// After the node holding `key` is deleted, a search from the root, if the tree
/// is not empty, does not find it.
pub proof fn lemma_delete_then_search(before: BstTree, after: BstTree, z: BstNodeLink)
    requires
        before.wf(),
        before.is_member(z),
        after.wf(),
        after.view() == before.view().remove(before.position(z)),
    ensures
        !after.view().contains(before.key_of(z)),
        after.root_link() matches Some(r) ==> !after.subtree_keys(r).contains(before.key_of(z)),
{
    let q = before.position(z);
    before.lemma_member(z);
    before.lemma_root();
    after.lemma_root();
    assert(before.view()[q] == before.key_of(z));
    assert forall|k: int| 0 <= k < after.view().len() implies after.view()[k] != before.key_of(z) by {
        if k < q {
            before.lemma_sorted(k, q);
        } else {
            before.lemma_sorted(q, k + 1);
        }
    }
    if let Some(r) = after.root_link() {
        assert(after.subtree_keys(r) =~= after.view());
    }
}

/// Every member of a tree leads up to one and the same root: the tree has a
/// root, it is a member, and it has no parent.
pub proof fn lemma_root_recovery(t: BstTree, node: BstNodeLink)
    requires
        t.wf(),
        t.is_member(node),
    ensures
        t.root_link() matches Some(r) && t.is_member(r) && t.arena()[r as int].parent is None,
{
    t.lemma_root();
    t.lemma_member(node);
    let r = t.root_link().unwrap();
    t.lemma_member(r);
    if let Some(p) = t.arena()[r as int].parent {
        t.lemma_member(p);
    }
}

} // verus!
