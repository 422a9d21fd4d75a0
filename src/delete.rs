use vstd::prelude::*;
use crate::node::{BstNode, BstNodeLink};
use crate::tree::BstTree;

verus! {

/// The arena after the subtree at `u` is replaced by `v`: the slot of `u` in its
/// parent now holds `v`, and `v` takes over the parent link of `u`.
pub open spec fn transplant_arena(a: Seq<BstNode>, u: BstNodeLink, v: Option<BstNodeLink>) -> Seq<
    BstNode,
> {
    let a1 = match a[u as int].parent {
        None => a,
        Some(p) => if a[p as int].left == Some(u) {
            a.update(p as int, a[p as int].with_left(v))
        } else {
            a.update(p as int, a[p as int].with_right(v))
        },
    };
    match v {
        None => a1,
        Some(x) => a1.update(x as int, a1[x as int].with_parent(a[u as int].parent)),
    }
}

/// The root after the subtree at `u` is replaced by `v`: `v` when `u` had no
/// parent, else unchanged.
pub open spec fn transplant_root(
    a: Seq<BstNode>,
    root: Option<BstNodeLink>,
    u: BstNodeLink,
    v: Option<BstNodeLink>,
) -> Option<BstNodeLink> {
    if a[u as int].parent is None {
        v
    } else {
        root
    }
}

/// A link with `z` replaced by `y`.
pub open spec fn swap_link(o: Option<BstNodeLink>, z: BstNodeLink, y: BstNodeLink) -> Option<
    BstNodeLink,
> {
    if o == Some(z) {
        Some(y)
    } else {
        o
    }
}

/// Node `i` after `y`, the in-order successor of `z`, a node with two children,
/// has been moved into the place of `z`. `y` takes the parent link and the left
/// child of `z`, and its right child too unless `y` was that child itself. Every
/// link to `z` now leads to `y`. When `y` came from deeper down, its own right
/// child takes the slot that `y` left. Keys stay where they were.
pub open spec fn moved_node(a: Seq<BstNode>, z: BstNodeLink, y: BstNodeLink, i: BstNodeLink) -> BstNode {
    let zn = a[z as int];
    let yn = a[y as int];
    let deep = zn.right != Some(y);
    if i == y {
        BstNode {
            key: yn.key,
            parent: zn.parent,
            left: zn.left,
            right: if deep {
                zn.right
            } else {
                yn.right
            },
        }
    } else {
        let n = a[i as int];
        let n1 = BstNode {
            key: n.key,
            parent: swap_link(n.parent, z, y),
            left: swap_link(n.left, z, y),
            right: swap_link(n.right, z, y),
        };
        if deep && yn.parent == Some(i) {
            n1.with_left(yn.right)
        } else if deep && yn.right == Some(i) {
            n1.with_parent(yn.parent)
        } else {
            n1
        }
    }
}

/// Moves a position or a boundary back over an entry removed at position `t`.
pub(crate) open spec fn dec(b: int, t: int) -> int {
    if b > t {
        b - 1
    } else {
        b
    }
}

/// A ghost map without `z`, its values moved back over position `t`.
pub(crate) open spec fn shrunk(m: Map<BstNodeLink, int>, z: BstNodeLink, t: int) -> Map<
    BstNodeLink,
    int,
> {
    Map::new(|i: BstNodeLink| m.dom().contains(i) && i != z, |i: BstNodeLink| dec(m[i], t))
}

impl BstTree {
    /// `t` is `old_t` with the member `s`, which has at most one child `c`,
    /// spliced out, and the ghost state moved back over its position.
    pub(crate) open spec fn spliced(
        old_t: BstTree,
        t: BstTree,
        s: BstNodeLink,
        c: Option<BstNodeLink>,
    ) -> bool {
        let q = old_t.pos@[s];
        let n = old_t.nodes@[s as int];
        &&& old_t.is_member(s)
        &&& ((n.left is None && c == n.right) || (n.right is None && c == n.left))
        &&& t.nodes@ == transplant_arena(old_t.nodes@, s, c)
        &&& t.root == transplant_root(old_t.nodes@, old_t.root, s, c)
        &&& t.order@ == old_t.order@.remove(q)
        &&& t.pos@ == shrunk(old_t.pos@, s, q)
        &&& t.lo@ == shrunk(old_t.lo@, s, q)
        &&& t.hi@ == shrunk(old_t.hi@, s, q)
    }

    /// A node of the arena after `s` is replaced by `c`.
    pub(crate) open spec fn spliced_node(
        a: Seq<BstNode>,
        s: BstNodeLink,
        c: Option<BstNodeLink>,
        j: BstNodeLink,
    ) -> BstNode {
        let sn = a[s as int];
        let nj = a[j as int];
        let nj1 = if sn.parent == Some(j) {
            if nj.left == Some(s) {
                nj.with_left(c)
            } else {
                nj.with_right(c)
            }
        } else {
            nj
        };
        if c == Some(j) {
            nj1.with_parent(sn.parent)
        } else {
            nj1
        }
    }

    proof fn lemma_transplant_at(
        a: Seq<BstNode>,
        s: BstNodeLink,
        c: Option<BstNodeLink>,
        j: BstNodeLink,
    )
        requires
            s < a.len(),
            j < a.len(),
            a[s as int].parent matches Some(p) ==> p < a.len(),
            c matches Some(x) ==> x < a.len(),
        ensures
            transplant_arena(a, s, c)[j as int] == BstTree::spliced_node(a, s, c, j),
            transplant_arena(a, s, c).len() == a.len(),
    {
    }

    /// The facts about `s`, its parent, its child `c` and the member `i` that
    /// each part of the splice proof starts from.
    proof fn lemma_splice_setup(
        old_t: BstTree,
        t: BstTree,
        s: BstNodeLink,
        c: Option<BstNodeLink>,
        i: BstNodeLink,
    )
        requires
            old_t.wf(),
            BstTree::spliced(old_t, t, s, c),
            t.is_member(i),
        ensures
            old_t.lo@.dom() == old_t.pos@.dom(),
            old_t.hi@.dom() == old_t.pos@.dom(),
            old_t.root matches Some(r) ==> old_t.is_member(r) && old_t.lo@[r] == 0 && old_t.hi@[r]
                == old_t.order@.len(),
            old_t.member_ok(s),
            old_t.member_ok(i),
            s < old_t.nodes@.len(),
            i < old_t.nodes@.len(),
            old_t.nodes@[s as int].parent matches Some(p) ==> old_t.is_member(p) && old_t.member_ok(p)
                && p < old_t.nodes@.len(),
            c matches Some(x) ==> old_t.is_member(x) && old_t.member_ok(x) && x < old_t.nodes@.len(),
            old_t.pos@[i] != old_t.pos@[s],
            t.nodes@[i as int] == BstTree::spliced_node(old_t.nodes@, s, c, i),
            t.nodes@.len() == old_t.nodes@.len(),
    {
        let a = old_t.nodes@;
        old_t.lemma_root();
        old_t.lemma_member(s);
        old_t.lemma_member(i);
        let sn = a[s as int];
        if let Some(p) = sn.parent {
            old_t.lemma_member(p);
        }
        if let Some(x) = c {
            old_t.lemma_member(x);
        }
        assert(old_t.pos@[i] != old_t.pos@[s]);
        BstTree::lemma_transplant_at(a, s, c, i);
    }

    #[verifier::rlimit(40)]
    proof fn lemma_splice_left(
        old_t: BstTree,
        t: BstTree,
        s: BstNodeLink,
        c: Option<BstNodeLink>,
        i: BstNodeLink,
    )
        requires
            old_t.wf(),
            BstTree::spliced(old_t, t, s, c),
            t.is_member(i),
        ensures
            match t.nodes@[i as int].left {
                None => t.lo@[i] == t.pos@[i],
                Some(l) => {
                    &&& t.is_member(l)
                    &&& t.nodes@[l as int].parent == Some(i)
                    &&& t.lo@[l] == t.lo@[i]
                    &&& t.hi@[l] == t.pos@[i]
                },
            },
    {
        let a = old_t.nodes@;
        BstTree::lemma_splice_setup(old_t, t, s, c, i);
        let tn = t.nodes@[i as int];
        if let Some(l) = tn.left {
            if l != c.unwrap_or(s) || c is None {
                old_t.lemma_member(l);
            }
            BstTree::lemma_transplant_at(a, s, c, l);
        }
    }

    #[verifier::rlimit(40)]
    proof fn lemma_splice_right(
        old_t: BstTree,
        t: BstTree,
        s: BstNodeLink,
        c: Option<BstNodeLink>,
        i: BstNodeLink,
    )
        requires
            old_t.wf(),
            BstTree::spliced(old_t, t, s, c),
            t.is_member(i),
        ensures
            match t.nodes@[i as int].right {
                None => t.hi@[i] == t.pos@[i] + 1,
                Some(r) => {
                    &&& t.is_member(r)
                    &&& t.nodes@[r as int].parent == Some(i)
                    &&& t.lo@[r] == t.pos@[i] + 1
                    &&& t.hi@[r] == t.hi@[i]
                },
            },
    {
        let a = old_t.nodes@;
        BstTree::lemma_splice_setup(old_t, t, s, c, i);
        let tn = t.nodes@[i as int];
        if let Some(r) = tn.right {
            if r != c.unwrap_or(s) || c is None {
                old_t.lemma_member(r);
            }
            BstTree::lemma_transplant_at(a, s, c, r);
        }
    }

    #[verifier::rlimit(40)]
    proof fn lemma_splice_parent(
        old_t: BstTree,
        t: BstTree,
        s: BstNodeLink,
        c: Option<BstNodeLink>,
        i: BstNodeLink,
    )
        requires
            old_t.wf(),
            BstTree::spliced(old_t, t, s, c),
            t.is_member(i),
        ensures
            match t.nodes@[i as int].parent {
                None => t.root == Some(i),
                Some(p) => {
                    &&& t.is_member(p)
                    &&& (t.nodes@[p as int].left == Some(i) || t.nodes@[p as int].right == Some(i))
                },
            },
    {
        let a = old_t.nodes@;
        BstTree::lemma_splice_setup(old_t, t, s, c, i);
        let tn = t.nodes@[i as int];
        if let Some(p) = tn.parent {
            old_t.lemma_member(p);
            BstTree::lemma_transplant_at(a, s, c, p);
        }
    }

    proof fn lemma_splice_member(
        old_t: BstTree,
        t: BstTree,
        s: BstNodeLink,
        c: Option<BstNodeLink>,
        i: BstNodeLink,
    )
        requires
            old_t.wf(),
            BstTree::spliced(old_t, t, s, c),
            t.is_member(i),
        ensures
            t.member_ok(i),
    {
        BstTree::lemma_splice_setup(old_t, t, s, c, i);
        BstTree::lemma_splice_left(old_t, t, s, c, i);
        BstTree::lemma_splice_right(old_t, t, s, c, i);
        BstTree::lemma_splice_parent(old_t, t, s, c, i);
    }

    /// Splicing out a member with at most one child keeps the tree well formed
    /// and removes its key from the in-order sequence.
    pub(crate) proof fn lemma_splice(
        old_t: BstTree,
        t: BstTree,
        s: BstNodeLink,
        c: Option<BstNodeLink>,
    )
        requires
            old_t.wf(),
            BstTree::spliced(old_t, t, s, c),
        ensures
            t.wf(),
            t.view() == old_t.view().remove(old_t.pos@[s]),
            t.nodes@.len() == old_t.nodes@.len(),
            t.nodes@[s as int] == old_t.nodes@[s as int],
            forall|i: int| 0 <= i < t.nodes@.len() ==> #[trigger] t.nodes@[i].key == old_t.nodes@[i].key,
    {
        let q = old_t.pos@[s];
        let n = old_t.order@.len() as int;
        old_t.lemma_member(s);
        old_t.lemma_root();
        let sn = old_t.nodes@[s as int];
        if let Some(p) = sn.parent {
            old_t.lemma_member(p);
        }
        if let Some(x) = c {
            old_t.lemma_member(x);
        }
        assert forall|k: int| 0 <= k < n - 1 implies #[trigger] t.key_at(k) == (if k < q {
            old_t.key_at(k)
        } else {
            old_t.key_at(k + 1)
        }) by {
            if k < q {
                old_t.lemma_order(k);
            } else {
                old_t.lemma_order(k + 1);
            }
        }
        assert(t.view() =~= old_t.view().remove(q));
        assert(t.lo@.dom() =~= t.pos@.dom());
        assert(t.hi@.dom() =~= t.pos@.dom());
        assert forall|k: int| 0 <= k < t.order@.len() implies {
            &&& #[trigger] t.order@[k] < t.nodes@.len()
            &&& t.is_member(t.order@[k])
            &&& t.pos@[t.order@[k]] == k
        } by {
            if k < q {
                old_t.lemma_order(k);
            } else {
                old_t.lemma_order(k + 1);
            }
        }
        assert forall|i: BstNodeLink| #[trigger] t.is_member(i) implies t.member_ok(i) by {
            BstTree::lemma_splice_member(old_t, t, s, c, i);
        }
        assert forall|a: int, b: int|
            0 <= a < b < t.order@.len() implies #[trigger] t.key_at(a) < #[trigger] t.key_at(b) by {
            if b < q {
                old_t.lemma_sorted(a, b);
            } else if a >= q {
                old_t.lemma_sorted(a + 1, b + 1);
            } else {
                old_t.lemma_sorted(a, b + 1);
            }
        }
        if let Some(r) = t.root {
            if old_t.root == Some(r) {
                old_t.lemma_member(r);
            }
        }
        t.lemma_wf_intro();
    }

    /// A node after `y` has taken the structural place of `z`: `y` holds the links
    /// of `z`, every node keeps its key, and links to `z` now lead to `y`.
    pub(crate) open spec fn relabel_node(
        a: Seq<BstNode>,
        z: BstNodeLink,
        y: BstNodeLink,
        j: BstNodeLink,
    ) -> BstNode {
        let n = a[(if j == y { z } else { j }) as int];
        BstNode {
            key: a[j as int].key,
            parent: swap_link(n.parent, z, y),
            left: swap_link(n.left, z, y),
            right: swap_link(n.right, z, y),
        }
    }

    /// `t` is `old_t` with the detached node `y` put in the place of the member `z`.
    pub(crate) open spec fn relabeled(
        old_t: BstTree,
        t: BstTree,
        z: BstNodeLink,
        y: BstNodeLink,
    ) -> bool {
        &&& old_t.is_member(z)
        &&& !old_t.is_member(y)
        &&& y < old_t.nodes@.len()
        &&& t.nodes@.len() == old_t.nodes@.len()
        &&& forall|j: BstNodeLink| #[trigger] t.is_member(j) ==> t.nodes@[j as int] == BstTree::relabel_node(old_t.nodes@, z, y, j)
        &&& t.root == swap_link(old_t.root, z, y)
        &&& t.order@ == old_t.order@.update(old_t.pos@[z], y)
        &&& t.pos@ == old_t.pos@.remove(z).insert(y, old_t.pos@[z])
        &&& t.lo@ == old_t.lo@.remove(z).insert(y, old_t.lo@[z])
        &&& t.hi@ == old_t.hi@.remove(z).insert(y, old_t.hi@[z])
    }

    #[verifier::rlimit(60)]
    proof fn lemma_relabel_member(
        old_t: BstTree,
        t: BstTree,
        z: BstNodeLink,
        y: BstNodeLink,
        j: BstNodeLink,
    )
        requires
            old_t.wf(),
            BstTree::relabeled(old_t, t, z, y),
            t.is_member(j),
        ensures
            t.member_ok(j),
    {
        old_t.lemma_root();
        old_t.lemma_member(z);
        let src = if j == y { z } else { j };
        old_t.lemma_member(src);
        assert(src != z ==> old_t.pos@[src] != old_t.pos@[z]);
        let nd = old_t.nodes@[src as int];
        if let Some(l) = nd.left {
            old_t.lemma_member(l);
            assert(t.is_member(swap_link(nd.left, z, y).unwrap()));
        }
        if let Some(r) = nd.right {
            old_t.lemma_member(r);
            assert(t.is_member(swap_link(nd.right, z, y).unwrap()));
        }
        if let Some(p) = nd.parent {
            old_t.lemma_member(p);
            assert(t.is_member(swap_link(nd.parent, z, y).unwrap()));
        }
    }

    /// The writes that move `y` into the place of `z` give every node of the
    /// result the links that relabelling prescribes.
    #[verifier::rlimit(60)]
    proof fn lemma_successor_moved(
        t1: BstTree,
        a6: Seq<BstNode>,
        z: BstNodeLink,
        y: BstNodeLink,
        zl: BstNodeLink,
        w: Option<BstNodeLink>,
    )
        requires
            t1.wf(),
            t1.is_member(z),
            !t1.is_member(y),
            y < t1.nodes@.len(),
            t1.nodes@[z as int].left == Some(zl),
            t1.nodes@[z as int].right == w,
            ({
                let a1 = t1.nodes@;
                let a2 = a1.update(y as int, a1[y as int].with_right(w));
                let a3 = match w {
                    Some(x) => a2.update(x as int, a2[x as int].with_parent(Some(y))),
                    None => a2,
                };
                let a4 = transplant_arena(a3, z, Some(y));
                let a5 = a4.update(y as int, a4[y as int].with_left(Some(zl)));
                a6 == a5.update(zl as int, a5[zl as int].with_parent(Some(y)))
            }),
        ensures
            a6.len() == t1.nodes@.len(),
            forall|j: BstNodeLink|
                (t1.is_member(j) && j != z) || j == y ==> #[trigger] a6[j as int] == BstTree::relabel_node(t1.nodes@, z, y, j),
    {
        let a1 = t1.nodes@;
        let a2 = a1.update(y as int, a1[y as int].with_right(w));
        let a3 = match w {
            Some(x) => a2.update(x as int, a2[x as int].with_parent(Some(y))),
            None => a2,
        };
        t1.lemma_root();
        t1.lemma_member(z);
        if let Some(p) = a1[z as int].parent {
            t1.lemma_member(p);
        }
        t1.lemma_member(zl);
        if let Some(x) = w {
            t1.lemma_member(x);
        }
        assert(a3[z as int] == a1[z as int]);
        BstTree::lemma_transplant_at(a3, z, Some(y), zl);
        BstTree::lemma_transplant_at(a3, z, Some(y), y);
        assert forall|j: BstNodeLink|
            (t1.is_member(j) && j != z) || j == y implies #[trigger] a6[j as int] == BstTree::relabel_node(a1, z, y, j) by {
            if j != y {
                t1.lemma_member(j);
                assert(t1.pos@[j] != t1.pos@[z]);
            }
            BstTree::lemma_transplant_at(a3, z, Some(y), j);
        }
    }

    /// Detaching the successor `y` of `z` and then relabelling `z` as `y` gives
    /// each remaining member the node that `moved_node` describes.
    #[verifier::rlimit(60)]
    proof fn lemma_moved_node(t0: BstTree, z: BstNodeLink, y: BstNodeLink, j: BstNodeLink)
        requires
            t0.wf(),
            t0.is_member(z),
            t0.nodes@[z as int].left is Some,
            t0.nodes@[z as int].right is Some,
            t0.is_member(y),
            t0.pos@[y] == t0.pos@[z] + 1,
            t0.nodes@[y as int].left is None,
            t0.is_member(j),
            j != z,
        ensures
            BstTree::relabel_node(transplant_arena(t0.nodes@, y, t0.nodes@[y as int].right), z, y, j)
                == moved_node(t0.nodes@, z, y, j),
            t0.nodes@[y as int].parent is Some,
            t0.nodes@[z as int].parent is None <==> t0.root == Some(z),
    {
        let a = t0.nodes@;
        let yr = a[y as int].right;
        t0.lemma_root();
        t0.lemma_member(z);
        t0.lemma_member(y);
        t0.lemma_member(j);
        t0.lemma_member(a[z as int].left.unwrap());
        t0.lemma_member(a[z as int].right.unwrap());
        if let Some(p) = a[z as int].parent {
            t0.lemma_member(p);
        }
        if let Some(p) = a[y as int].parent {
            t0.lemma_member(p);
        } else {
            assert(t0.lo@[y] == 0);
        }
        if let Some(x) = yr {
            t0.lemma_member(x);
        }
        assert(t0.pos@[j] != t0.pos@[z]);
        assert(j != y ==> t0.pos@[j] != t0.pos@[y]);
        BstTree::lemma_transplant_at(a, y, yr, j);
        BstTree::lemma_transplant_at(a, y, yr, z);
    }

    /// Putting a detached node whose key fits the position of a member in that
    /// member's place keeps the tree well formed.
    pub(crate) proof fn lemma_relabel(old_t: BstTree, t: BstTree, z: BstNodeLink, y: BstNodeLink)
        requires
            old_t.wf(),
            BstTree::relabeled(old_t, t, z, y),
            forall|k: int| 0 <= k < old_t.pos@[z] ==> #[trigger] old_t.key_at(k) < old_t.nodes@[y as int].key,
            forall|k: int| old_t.pos@[z] < k < old_t.order@.len() ==> #[trigger] old_t.key_at(k) > old_t.nodes@[y as int].key,
        ensures
            t.wf(),
            t.view() == old_t.view().update(old_t.pos@[z], old_t.nodes@[y as int].key),
    {
        let q = old_t.pos@[z];
        let yk = old_t.nodes@[y as int].key;
        old_t.lemma_root();
        old_t.lemma_member(z);
        assert forall|k: int| 0 <= k < old_t.order@.len() implies #[trigger] t.key_at(k) == (if k == q {
            yk
        } else {
            old_t.key_at(k)
        }) by {
            old_t.lemma_order(k);
            if k == q {
                assert(t.is_member(y));
            } else {
                assert(t.is_member(old_t.order@[k]));
            }
        }
        assert(t.view() =~= old_t.view().update(q, yk));
        assert(t.lo@.dom() =~= t.pos@.dom());
        assert(t.hi@.dom() =~= t.pos@.dom());
        assert forall|k: int| 0 <= k < t.order@.len() implies {
            &&& #[trigger] t.order@[k] < t.nodes@.len()
            &&& t.is_member(t.order@[k])
            &&& t.pos@[t.order@[k]] == k
        } by {
            old_t.lemma_order(k);
        }
        assert forall|j: BstNodeLink| #[trigger] t.is_member(j) implies t.member_ok(j) by {
            BstTree::lemma_relabel_member(old_t, t, z, y, j);
        }
        assert forall|a: int, b: int|
            0 <= a < b < t.order@.len() implies #[trigger] t.key_at(a) < #[trigger] t.key_at(b) by {
            if a != q && b != q {
                old_t.lemma_sorted(a, b);
            }
        }
        if let Some(r) = old_t.root {
            old_t.lemma_member(r);
        }
        t.lemma_wf_intro();
    }
}

impl BstNode {
    /// Replaces the subtree at `u` by `v` (possibly absent) in the slot of `u`'s
    /// parent, or as the root when `u` has no parent, and returns the root.
    /// Only links change; the ghost bookkeeping is left for the caller to renew.
    pub fn transplant(
        tree: &mut BstTree,
        u: BstNodeLink,
        v: Option<BstNodeLink>,
    ) -> (r: Option<BstNodeLink>)
        requires
            u < old(tree).arena().len(),
            old(tree).arena()[u as int].parent matches Some(p) ==> p < old(tree).arena().len(),
            v matches Some(x) ==> x < old(tree).arena().len(),
        ensures
            final(tree).arena() == transplant_arena(old(tree).arena(), u, v),
            final(tree).root_link() == transplant_root(old(tree).arena(), old(tree).root_link(), u, v),
            r == final(tree).root_link(),
            final(tree).layout() == old(tree).layout(),
    {
        let u_parent = tree.nodes[u].parent;
        match u_parent {
            None => {
                tree.root = v;
            },
            Some(p) => {
                let mut p_node = tree.nodes[p];
                if p_node.left == Some(u) {
                    p_node.left = v;
                } else {
                    p_node.right = v;
                }
                tree.nodes.set(p, p_node);
            },
        }
        if let Some(x) = v {
            let mut x_node = tree.nodes[x];
            x_node.parent = u_parent;
            tree.nodes.set(x, x_node);
        }
        tree.root
    }

    /// Removes the member `z` and returns the new root, `None` once the tree is
    /// empty. A node with at most one child is replaced by that child. A node
    /// with two children is replaced by its in-order successor, which is moved,
    /// not copied: the successor is first detached, its right subtree taking its
    /// place, and then takes over the position and the links of `z`.
    #[verifier::rlimit(80)]
    pub fn tree_delete(tree: &mut BstTree, z: BstNodeLink) -> (r: Option<BstNodeLink>)
        requires
            old(tree).wf(),
            old(tree).is_member(z),
        ensures
            final(tree).wf(),
            r == final(tree).root_link(),
            final(tree).handles() == old(tree).handles().remove(old(tree).position(z)),
            final(tree).view() == old(tree).view().remove(old(tree).position(z)),
            final(tree).arena().len() == old(tree).arena().len(),
            forall|i: int|
                0 <= i < old(tree).arena().len() ==> #[trigger] final(tree).arena()[i].key == old(
                    tree,
                ).arena()[i].key,
            old(tree).arena()[z as int].left is None || old(tree).arena()[z as int].right is None ==> {
                let c = old(tree).arena()[z as int].only_child();
                &&& final(tree).arena() == transplant_arena(old(tree).arena(), z, c)
                &&& final(tree).root_link() == transplant_root(
                    old(tree).arena(),
                    old(tree).root_link(),
                    z,
                    c,
                )
            },
            old(tree).arena()[z as int].left is Some && old(tree).arena()[z as int].right is Some ==> {
                let y = old(tree).handles()[old(tree).position(z) + 1];
                &&& old(tree).position(z) + 1 < old(tree).handles().len()
                &&& final(tree).root_link() == if old(tree).arena()[z as int].parent is None {
                    Some(y)
                } else {
                    old(tree).root_link()
                }
                &&& forall|i: BstNodeLink|
                    old(tree).handles().contains(i) && i != z ==> #[trigger] final(tree).arena()[i as int]
                        == moved_node(old(tree).arena(), z, y, i)
            },
    {
        let ghost t0 = *tree;
        let ghost q = t0.pos@[z];
        proof {
            t0.lemma_member(z);
            t0.lemma_root();
        }
        let z_node = tree.nodes[z];
        if z_node.left.is_none() || z_node.right.is_none() {
            let child = if z_node.left.is_none() {
                z_node.right
            } else {
                z_node.left
            };
            let r = BstNode::transplant(tree, z, child);
            tree.order = Ghost(t0.order@.remove(q));
            tree.pos = Ghost(shrunk(t0.pos@, z, q));
            tree.lo = Ghost(shrunk(t0.lo@, z, q));
            tree.hi = Ghost(shrunk(t0.hi@, z, q));
            proof {
                BstTree::lemma_splice(t0, *tree, z, child);
            }
            return r;
        }
        let z_right = z_node.right.unwrap();
        let y = BstNode::minimum_nodelink(tree, z_right);
        proof {
            t0.lemma_member(z_right);
            t0.lemma_member(y);
        }
        // detach the successor, which has no left child
        let y_right = tree.nodes[y].right;
        BstNode::transplant(tree, y, y_right);
        tree.order = Ghost(t0.order@.remove(q + 1));
        tree.pos = Ghost(shrunk(t0.pos@, y, q + 1));
        tree.lo = Ghost(shrunk(t0.lo@, y, q + 1));
        tree.hi = Ghost(shrunk(t0.hi@, y, q + 1));
        let ghost t1 = *tree;
        proof {
            BstTree::lemma_splice(t0, t1, y, y_right);
            t1.lemma_member(z);
            t1.lemma_root();
            BstTree::lemma_transplant_at(t0.nodes@, y, y_right, z);
            BstTree::lemma_transplant_at(t0.nodes@, y, y_right, y);
        }
        // the successor takes the place of z, with its links
        let z_right = tree.nodes[z].right;
        let mut y_node = tree.nodes[y];
        y_node.right = z_right;
        tree.nodes.set(y, y_node);
        if let Some(w) = z_right {
            let mut w_node = tree.nodes[w];
            w_node.parent = Some(y);
            tree.nodes.set(w, w_node);
        }
        BstNode::transplant(tree, z, Some(y));
        let z_left = tree.nodes[z].left.unwrap();
        let mut y_node = tree.nodes[y];
        y_node.left = Some(z_left);
        tree.nodes.set(y, y_node);
        let mut zl_node = tree.nodes[z_left];
        zl_node.parent = Some(y);
        tree.nodes.set(z_left, zl_node);
        tree.order = Ghost(t1.order@.update(q, y));
        tree.pos = Ghost(t1.pos@.remove(z).insert(y, t1.pos@[z]));
        tree.lo = Ghost(t1.lo@.remove(z).insert(y, t1.lo@[z]));
        tree.hi = Ghost(t1.hi@.remove(z).insert(y, t1.hi@[z]));
        proof {
            BstTree::lemma_successor_moved(t1, tree.nodes@, z, y, z_left, z_right);
            assert(t1.pos@[z] == q);
            assert(t1.nodes@[y as int].key == t0.key_at(q + 1));
            assert forall|k: int| 0 <= k < t1.pos@[z] implies #[trigger] t1.key_at(k) < t1.nodes@[y as int].key by {
                assert(t1.view()[k] == t1.key_at(k));
                t0.lemma_sorted(k, q + 1);
            }
            assert forall|k: int| t1.pos@[z] < k < t1.order@.len() implies #[trigger] t1.key_at(k) > t1.nodes@[y as int].key by {
                assert(t1.view()[k] == t1.key_at(k));
                t0.lemma_sorted(q + 1, k + 1);
            }
            BstTree::lemma_relabel(t1, *tree, z, y);
            BstTree::lemma_moved_node(t0, z, y, y);
            assert(t0.order@[q + 1] == y);
            assert forall|i: BstNodeLink|
                t0.handles().contains(i) && i != z implies #[trigger] tree.nodes@[i as int]
                    == moved_node(t0.nodes@, z, y, i) by {
                let k = choose|k: int| 0 <= k < t0.order@.len() && t0.order@[k] == i;
                t0.lemma_order(k);
                BstTree::lemma_moved_node(t0, z, y, i);
            }
            assert(tree.handles() =~= t0.handles().remove(q));
            assert(tree.view() =~= t0.view().remove(q));
        }
        tree.root
    }
}

} // verus!
