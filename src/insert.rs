use vstd::prelude::*;
use crate::node::{BstNode, BstNodeLink};
use crate::tree::BstTree;

verus! {

/// Moves a position or a range boundary past a new entry at position `q`;
/// `incl` says whether a boundary equal to `q` moves too.
pub(crate) open spec fn bump(b: int, q: int, incl: bool) -> int {
    if b > q || (incl && b == q) {
        b + 1
    } else {
        b
    }
}

/// A ghost map after a new entry `z` with value `zv` is placed at position `q`.
pub(crate) open spec fn bumped(
    m: Map<BstNodeLink, int>,
    z: BstNodeLink,
    zv: int,
    q: int,
    incl: bool,
) -> Map<BstNodeLink, int> {
    Map::new(
        |i: BstNodeLink| m.dom().contains(i) || i == z,
        |i: BstNodeLink|
            if i == z {
                zv
            } else {
                bump(m[i], q, incl)
            },
    )
}

impl BstTree {
    /// The in-order position that a new leaf takes under `y` on the given side.
    pub(crate) open spec fn slot_pos(&self, y: BstNodeLink, left: bool) -> int {
        if left {
            self.pos@[y]
        } else {
            self.pos@[y] + 1
        }
    }

    /// `t` is `old_t` with a fresh leaf `z` of key `zk` linked under `y` on the
    /// given side, and its ghost state moved past the new position.
    pub(crate) open spec fn attached(
        old_t: BstTree,
        t: BstTree,
        y: BstNodeLink,
        z: BstNodeLink,
        zk: i32,
        left: bool,
    ) -> bool {
        let q = old_t.slot_pos(y, left);
        &&& old_t.is_member(y)
        &&& z == old_t.nodes@.len()
        &&& left ==> old_t.nodes@[y as int].left is None
        &&& !left ==> old_t.nodes@[y as int].right is None
        &&& t.nodes@ == old_t.nodes@.update(
            y as int,
            if left {
                old_t.nodes@[y as int].with_left(Some(z))
            } else {
                old_t.nodes@[y as int].with_right(Some(z))
            },
        ).push(BstNode::leaf(zk, Some(y)))
        &&& t.root == old_t.root
        &&& t.order@ == old_t.order@.insert(q, z)
        &&& t.pos@ == bumped(old_t.pos@, z, q, q, true)
        &&& t.lo@ == bumped(old_t.lo@, z, q, q, !left)
        &&& t.hi@ == bumped(old_t.hi@, z, q + 1, q, !left)
    }

    #[verifier::rlimit(40)]
    proof fn lemma_attach_member(
        old_t: BstTree,
        t: BstTree,
        y: BstNodeLink,
        z: BstNodeLink,
        zk: i32,
        left: bool,
        i: BstNodeLink,
    )
        requires
            old_t.wf(),
            BstTree::attached(old_t, t, y, z, zk, left),
            t.is_member(i),
        ensures
            t.member_ok(i),
    {
        old_t.lemma_member(y);
        old_t.lemma_root();
        if i != z {
            old_t.lemma_member(i);
            let nd = old_t.nodes@[i as int];
            if let Some(l) = nd.left {
                old_t.lemma_member(l);
            }
            if let Some(r) = nd.right {
                old_t.lemma_member(r);
            }
            if let Some(p) = nd.parent {
                old_t.lemma_member(p);
            }
            assert(i != y ==> old_t.pos@[i] != old_t.pos@[y]);
        }
    }

    /// Linking a fresh leaf under a member, at a free slot whose position
    /// separates the smaller keys from the larger ones, keeps the tree well formed.
    pub(crate) proof fn lemma_attach(
        old_t: BstTree,
        t: BstTree,
        y: BstNodeLink,
        z: BstNodeLink,
        zk: i32,
        left: bool,
    )
        requires
            old_t.wf(),
            BstTree::attached(old_t, t, y, z, zk, left),
            forall|k: int|
                0 <= k < old_t.slot_pos(y, left) ==> #[trigger] old_t.key_at(k) < zk,
            forall|k: int|
                old_t.slot_pos(y, left) <= k < old_t.order@.len() ==> #[trigger] old_t.key_at(k)
                    > zk,
        ensures
            t.wf(),
            t.view() == old_t.view().insert(old_t.slot_pos(y, left), zk),
    {
        let q = old_t.slot_pos(y, left);
        let n = old_t.order@.len() as int;
        old_t.lemma_member(y);
        old_t.lemma_root();
        assert forall|k: int| 0 <= k <= n implies #[trigger] t.key_at(k) == (if k < q {
            old_t.key_at(k)
        } else if k == q {
            zk
        } else {
            old_t.key_at(k - 1)
        }) by {
            if k < q {
                old_t.lemma_order(k);
            } else if k > q {
                old_t.lemma_order(k - 1);
            }
        }
        assert(t.view() =~= old_t.view().insert(q, zk));
        assert(t.lo@.dom() =~= t.pos@.dom());
        assert(t.hi@.dom() =~= t.pos@.dom());
        assert forall|k: int| 0 <= k < t.order@.len() implies {
            &&& #[trigger] t.order@[k] < t.nodes@.len()
            &&& t.is_member(t.order@[k])
            &&& t.pos@[t.order@[k]] == k
        } by {
            if k < q {
                old_t.lemma_order(k);
            } else if k > q {
                old_t.lemma_order(k - 1);
            }
        }
        assert forall|i: BstNodeLink| #[trigger] t.is_member(i) implies t.member_ok(i) by {
            BstTree::lemma_attach_member(old_t, t, y, z, zk, left, i);
        }
        assert forall|a: int, b: int|
            0 <= a < b < t.order@.len() implies #[trigger] t.key_at(a) < #[trigger] t.key_at(b) by {
            if a < q && b < q {
                old_t.lemma_sorted(a, b);
            } else if a > q && b > q {
                old_t.lemma_sorted(a - 1, b - 1);
            } else if a < q && b > q {
                old_t.lemma_sorted(a, b - 1);
            }
        }
        if let Some(r) = old_t.root {
            old_t.lemma_member(r);
            assert(t.lo@[r] == 0);
            assert(t.hi@[r] == n + 1);
        }
        t.lemma_wf_intro();
    }
}

impl BstNode {
    /// Allocates a leaf whose parent link is `parent`; it is not yet a child of
    /// any node.
    fn new_with_parent(tree: &mut BstTree, parent: BstNodeLink, value: i32) -> (r: BstNodeLink)
        ensures
            r == old(tree).arena().len(),
            final(tree).arena() == old(tree).arena().push(BstNode::leaf(value, Some(parent))),
            final(tree).root == old(tree).root,
            final(tree).order == old(tree).order,
            final(tree).pos == old(tree).pos,
            final(tree).lo == old(tree).lo,
            final(tree).hi == old(tree).hi,
            old(tree).wf() ==> final(tree).wf(),
    {
        let mut node = BstNode::new(value);
        node.parent = Some(parent);
        tree.push_node(node)
    }

    /// Allocates a detached node holding `value`. The tree itself is unchanged.
    pub fn new_bst_nodelink(tree: &mut BstTree, value: i32) -> (r: BstNodeLink)
        ensures
            r == old(tree).arena().len(),
            final(tree).arena() == old(tree).arena().push(BstNode::leaf(value, None)),
            final(tree).root_link() == old(tree).root_link(),
            final(tree).handles() == old(tree).handles(),
            old(tree).wf() ==> final(tree).wf() && final(tree).view() == old(tree).view(),
    {
        let node = BstNode::new(value);
        let r = tree.push_node(node);
        proof {
            if old(tree).wf() {
                assert forall|k: int| 0 <= k < tree.handles().len() implies tree.key_at(k)
                    == old(tree).key_at(k) by {
                    old(tree).lemma_order(k);
                }
                assert(tree.view() =~= old(tree).view());
            }
        }
        r
    }

    /// Allocates a copy of this node, links included, as a new arena entry.
    /// The tree itself is unchanged.
    pub fn get_bst_nodelink_copy(&self, tree: &mut BstTree) -> (r: BstNodeLink)
        ensures
            r == old(tree).arena().len(),
            final(tree).arena() == old(tree).arena().push(*self),
            final(tree).root_link() == old(tree).root_link(),
            final(tree).handles() == old(tree).handles(),
            old(tree).wf() ==> final(tree).wf() && final(tree).view() == old(tree).view(),
    {
        let r = tree.push_node(*self);
        proof {
            if old(tree).wf() {
                assert forall|k: int| 0 <= k < tree.handles().len() implies tree.key_at(k)
                    == old(tree).key_at(k) by {
                    old(tree).lemma_order(k);
                }
                assert(tree.view() =~= old(tree).view());
            }
        }
        r
    }

    /// Allocates a leaf holding `value` and makes it the left child of
    /// `current_node_link`, replacing any left child it had. No ordering is
    /// checked: this builds arbitrary shapes.
    pub fn add_left_child(tree: &mut BstTree, current_node_link: BstNodeLink, value: i32)
        requires
            current_node_link < old(tree).arena().len(),
        ensures
            final(tree).arena() == old(tree).arena().update(
                current_node_link as int,
                old(tree).arena()[current_node_link as int].with_left(
                    Some(old(tree).arena().len() as BstNodeLink),
                ),
            ).push(BstNode::leaf(value, Some(current_node_link))),
            final(tree).root_link() == old(tree).root_link(),
    {
        let new_node = BstNode::new_with_parent(tree, current_node_link, value);
        let mut current = tree.nodes[current_node_link];
        current.left = Some(new_node);
        tree.nodes.set(current_node_link, current);
        proof {
            assert(tree.nodes@ =~= old(tree).arena().update(
                current_node_link as int,
                old(tree).arena()[current_node_link as int].with_left(Some(new_node)),
            ).push(BstNode::leaf(value, Some(current_node_link))));
        }
    }

    /// Allocates a leaf holding `value` and makes it the right child of
    /// `current_node_link`, replacing any right child it had. No ordering is
    /// checked: this builds arbitrary shapes.
    pub fn add_right_child(tree: &mut BstTree, current_node_link: BstNodeLink, value: i32)
        requires
            current_node_link < old(tree).arena().len(),
        ensures
            final(tree).arena() == old(tree).arena().update(
                current_node_link as int,
                old(tree).arena()[current_node_link as int].with_right(
                    Some(old(tree).arena().len() as BstNodeLink),
                ),
            ).push(BstNode::leaf(value, Some(current_node_link))),
            final(tree).root_link() == old(tree).root_link(),
    {
        let new_node = BstNode::new_with_parent(tree, current_node_link, value);
        let mut current = tree.nodes[current_node_link];
        current.right = Some(new_node);
        tree.nodes.set(current_node_link, current);
        proof {
            assert(tree.nodes@ =~= old(tree).arena().update(
                current_node_link as int,
                old(tree).arena()[current_node_link as int].with_right(Some(new_node)),
            ).push(BstNode::leaf(value, Some(current_node_link))));
        }
    }

    /// Inserts `z_key` as a new leaf, found by descent from the root, and returns
    /// the root. A key already present leaves the tree as it was.
    pub fn tree_insert(tree: &mut BstTree, z_key: i32) -> (r: BstNodeLink)
        requires
            old(tree).wf(),
        ensures
            final(tree).wf(),
            final(tree).root_link() == Some(r),
            old(tree).root_link() is Some ==> final(tree).root_link() == old(tree).root_link(),
            old(tree).view().contains(z_key) ==> *final(tree) == *old(tree),
            !old(tree).view().contains(z_key) ==> exists|q: int|
                0 <= q <= old(tree).view().len() && final(tree).handles() == old(tree).handles().insert(
                    q,
                    old(tree).arena().len() as BstNodeLink,
                ) && final(tree).view() == old(tree).view().insert(q, z_key),
            !old(tree).view().contains(z_key) ==> {
                let z = old(tree).arena().len() as BstNodeLink;
                &&& final(tree).arena().len() == z + 1
                &&& final(tree).arena()[z as int].left is None
                &&& final(tree).arena()[z as int].right is None
                &&& forall|i: int|
                    0 <= i < z && #[trigger] final(tree).arena()[i] != old(tree).arena()[i]
                        ==> final(tree).arena()[z as int].parent == Some(i as BstNodeLink)
            },
    {
        let ghost t0 = *tree;
        let ghost n = tree.order@.len() as int;
        let ghost mut lo_b: int = 0;
        let ghost mut hi_b: int = n;
        proof {
            tree.lemma_root();
        }
        let mut y: Option<BstNodeLink> = None;
        let mut x: Option<BstNodeLink> = tree.root;
        while x.is_some()
            invariant
                *tree == t0,
                tree.wf(),
                n == tree.order@.len(),
                0 <= lo_b <= hi_b <= n,
                forall|k: int| 0 <= k < lo_b ==> #[trigger] tree.key_at(k) < z_key,
                forall|k: int| hi_b <= k < n ==> #[trigger] tree.key_at(k) > z_key,
                x matches Some(c) ==> tree.is_member(c) && tree.lo@[c] == lo_b && tree.hi@[c] == hi_b,
                x is None ==> lo_b == hi_b,
                y is None ==> x == tree.root,
                y matches Some(p) ==> tree.is_member(p) && if z_key < tree.key_of(p) {
                    x == tree.nodes@[p as int].left && hi_b == tree.pos@[p]
                } else {
                    x == tree.nodes@[p as int].right && lo_b == tree.pos@[p] + 1
                },
            decreases hi_b - lo_b + (if x is Some { 1int } else { 0int }),
        {
            let c = x.unwrap();
            proof {
                tree.lemma_member(c);
            }
            let node = tree.nodes[c];
            if node.key == z_key {
                proof {
                    tree.lemma_root();
                    assert(tree.view()[tree.pos@[c]] == z_key);
                }
                return tree.root.unwrap();
            }
            proof {
                let pc = tree.pos@[c];
                assert forall|k: int| pc <= k < n implies z_key < node.key ==> #[trigger] tree.key_at(k) > z_key by {
                    if pc < k {
                        tree.lemma_sorted(pc, k);
                    }
                }
                assert forall|k: int| 0 <= k <= pc implies z_key > node.key ==> #[trigger] tree.key_at(k) < z_key by {
                    if k < pc {
                        tree.lemma_sorted(k, pc);
                    }
                }
                if z_key < node.key {
                    hi_b = pc;
                } else {
                    lo_b = pc + 1;
                }
            }
            y = Some(c);
            if z_key < node.key {
                x = node.left;
            } else {
                x = node.right;
            }
        }
        proof {
            assert forall|k: int| 0 <= k < n implies tree.view()[k] != z_key by {
                assert(tree.view()[k] == tree.key_at(k));
            }
        }
        match y {
            None => {
                let z = BstNode::new_bst_nodelink(tree, z_key);
                tree.root = Some(z);
                tree.order = Ghost(Seq::empty().push(z));
                tree.pos = Ghost(Map::empty().insert(z, 0int));
                tree.lo = Ghost(Map::empty().insert(z, 0int));
                tree.hi = Ghost(Map::empty().insert(z, 1int));
                proof {
                    assert(tree.pos@.dom() =~= Set::empty().insert(z));
                    assert(tree.lo@.dom() =~= Set::empty().insert(z));
                    assert(tree.hi@.dom() =~= Set::empty().insert(z));
                    assert(tree.member_ok(z));
                    tree.lemma_wf_intro();
                    assert(tree.handles() =~= t0.handles().insert(0, z));
                    assert(tree.view() =~= t0.view().insert(0, z_key));
                }
                z
            },
            Some(p) => {
                let z = BstNode::new_with_parent(tree, p, z_key);
                proof {
                    t0.lemma_member(p);
                }
                let ghost left = z_key < t0.key_of(p);
                let ghost q = t0.slot_pos(p, left);
                let mut parent_node = tree.nodes[p];
                if z_key < parent_node.key {
                    parent_node.left = Some(z);
                } else {
                    parent_node.right = Some(z);
                }
                tree.nodes.set(p, parent_node);
                tree.order = Ghost(t0.order@.insert(q, z));
                tree.pos = Ghost(bumped(t0.pos@, z, q, q, true));
                tree.lo = Ghost(bumped(t0.lo@, z, q, q, !left));
                tree.hi = Ghost(bumped(t0.hi@, z, q + 1, q, !left));
                proof {
                    t0.lemma_member(p);
                    assert(tree.nodes@ =~= t0.nodes@.update(
                        p as int,
                        if left {
                            t0.nodes@[p as int].with_left(Some(z))
                        } else {
                            t0.nodes@[p as int].with_right(Some(z))
                        },
                    ).push(BstNode::leaf(z_key, Some(p))));
                    BstTree::lemma_attach(t0, *tree, p, z, z_key, left);
                }
                tree.root.unwrap()
            },
        }
    }
}

} // verus!
