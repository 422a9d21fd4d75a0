use vstd::prelude::*;
use crate::node::{BstNode, BstNodeLink};
use crate::tree::BstTree;

verus! {

impl BstNode {
    /// Iterative descent from `current_node_link` towards `value`.
    pub fn tree_search(tree: &BstTree, current_node_link: BstNodeLink, value: &i32) -> (r: Option<
        BstNodeLink,
    >)
        requires
            tree.wf(),
            tree.is_member(current_node_link),
        ensures
            match r {
                Some(f) => {
                    &&& tree.is_member(f)
                    &&& tree.key_of(f) == *value
                    &&& tree.first_of(current_node_link) <= tree.position(f) < tree.end_of(
                        current_node_link,
                    )
                },
                None => !tree.subtree_keys(current_node_link).contains(*value),
            },
    {
        let ghost start = current_node_link;
        let mut cur = current_node_link;
        loop
            invariant
                tree.wf(),
                tree.is_member(cur),
                tree.is_member(start),
                start == current_node_link,
                tree.lo@[start] <= tree.lo@[cur],
                tree.hi@[cur] <= tree.hi@[start],
                forall|k: int|
                    tree.lo@[start] <= k < tree.hi@[start] && #[trigger] tree.key_at(k) == *value
                        ==> tree.lo@[cur] <= k < tree.hi@[cur],
            decreases tree.hi@[cur] - tree.lo@[cur],
        {
            proof {
                tree.lemma_member(cur);
            }
            let node = tree.nodes[cur];
            if *value == node.key {
                return Some(cur);
            }
            let next = if *value < node.key {
                node.left
            } else {
                node.right
            };
            proof {
                let pc = tree.pos@[cur];
                assert(tree.key_at(pc) == node.key);
                assert forall|k: int|
                    tree.lo@[start] <= k < tree.hi@[start] && #[trigger] tree.key_at(k) == *value
                        implies (if *value < node.key { k < pc } else { k > pc }) by {
                    if k < pc {
                        tree.lemma_sorted(k, pc);
                    } else if pc < k {
                        tree.lemma_sorted(pc, k);
                    }
                }
            }
            match next {
                Some(n) => {
                    cur = n;
                },
                None => {
                    proof {
                        tree.lemma_member(start);
                        let sub = tree.subtree_keys(start);
                        assert forall|j: int| 0 <= j < sub.len() implies sub[j] != *value by {
                            let k = tree.lo@[start] + j;
                            assert(sub[j] == tree.key_at(k));
                            if tree.key_at(k) == *value {
                                let pc = tree.pos@[cur];
                                assert(tree.key_at(pc) == node.key);
                                if k < pc {
                                    tree.lemma_sorted(k, pc);
                                } else if pc < k {
                                    tree.lemma_sorted(pc, k);
                                }
                            }
                        }
                    }
                    return None;
                },
            }
        }
    }

    /// Follows left links from `node` down to the first key of its subtree.
    pub fn minimum_nodelink(tree: &BstTree, node: BstNodeLink) -> (r: BstNodeLink)
        requires
            tree.wf(),
            tree.is_member(node),
        ensures
            tree.is_member(r),
            tree.position(r) == tree.first_of(node),
            tree.key_of(r) == tree.subtree_keys(node).first(),
            tree.arena()[r as int].left is None,
    {
        let mut cur = node;
        loop
            invariant
                tree.wf(),
                tree.is_member(node),
                tree.is_member(cur),
                tree.lo@[cur] == tree.lo@[node],
            decreases tree.hi@[cur] - tree.lo@[cur],
        {
            proof {
                tree.lemma_member(cur);
            }
            match tree.nodes[cur].left {
                Some(l) => {
                    cur = l;
                },
                None => {
                    proof {
                        tree.lemma_member(node);
                    }
                    return cur;
                },
            }
        }
    }

    /// Follows right links from `node` down to the last key of its subtree.
    pub fn maximum_nodelink(tree: &BstTree, node: BstNodeLink) -> (r: BstNodeLink)
        requires
            tree.wf(),
            tree.is_member(node),
        ensures
            tree.is_member(r),
            tree.position(r) == tree.end_of(node) - 1,
            tree.key_of(r) == tree.subtree_keys(node).last(),
            tree.arena()[r as int].right is None,
    {
        let mut cur = node;
        loop
            invariant
                tree.wf(),
                tree.is_member(node),
                tree.is_member(cur),
                tree.hi@[cur] == tree.hi@[node],
            decreases tree.hi@[cur] - tree.lo@[cur],
        {
            proof {
                tree.lemma_member(cur);
            }
            match tree.nodes[cur].right {
                Some(r) => {
                    cur = r;
                },
                None => {
                    proof {
                        tree.lemma_member(node);
                    }
                    return cur;
                },
            }
        }
    }

    /// Follows parent links upward until a node without a parent: the root.
    pub fn get_root(tree: &BstTree, node: BstNodeLink) -> (r: BstNodeLink)
        requires
            tree.wf(),
            tree.is_member(node),
        ensures
            tree.root_link() == Some(r),
    {
        let mut cur = node;
        loop
            invariant
                tree.wf(),
                tree.is_member(cur),
            decreases tree.order@.len() - (tree.hi@[cur] - tree.lo@[cur]),
        {
            proof {
                tree.lemma_member(cur);
            }
            match tree.nodes[cur].parent {
                Some(p) => {
                    proof {
                        tree.lemma_member(p);
                    }
                    cur = p;
                },
                None => {
                    return cur;
                },
            }
        }
    }

    /// The node that follows `x_node` in key order: the minimum of its right
    /// subtree if it has one, else the first ancestor reached from a left link.
    pub fn tree_successor(tree: &BstTree, x_node: BstNodeLink) -> (r: Option<BstNodeLink>)
        requires
            tree.wf(),
            tree.is_member(x_node),
        ensures
            match r {
                Some(s) => tree.is_member(s) && tree.position(s) == tree.position(x_node) + 1,
                None => tree.position(x_node) == tree.view().len() - 1,
            },
            tree.is_successor_of(x_node, r),
    {
        proof {
            tree.lemma_member(x_node);
        }
        if let Some(right) = tree.nodes[x_node].right {
            let m = BstNode::minimum_nodelink(tree, right);
            proof {
                BstTree::lemma_successor_keys(tree, x_node, Some(m));
            }
            return Some(m);
        }
        let mut current = x_node;
        let mut parent = tree.nodes[x_node].parent;
        loop
            invariant
                tree.wf(),
                tree.is_member(x_node),
                tree.is_member(current),
                current < tree.nodes@.len(),
                parent == tree.nodes@[current as int].parent,
                tree.hi@[current] == tree.pos@[x_node] + 1,
            decreases tree.order@.len() - (tree.hi@[current] - tree.lo@[current]),
        {
            proof {
                tree.lemma_member(current);
            }
            match parent {
                Some(p) => {
                    proof {
                        tree.lemma_member(p);
                    }
                    if tree.nodes[p].left == Some(current) {
                        proof {
                            BstTree::lemma_successor_keys(tree, x_node, Some(p));
                        }
                        return Some(p);
                    }
                    current = p;
                    parent = tree.nodes[p].parent;
                },
                None => {
                    proof {
                        tree.lemma_root();
                        BstTree::lemma_successor_keys(tree, x_node, None);
                    }
                    return None;
                },
            }
        }
    }

    /// The same successor, written with the right link of each ancestor tested
    /// first.
    pub fn tree_successor_simpler(tree: &BstTree, x_node: BstNodeLink) -> (r: Option<BstNodeLink>)
        requires
            tree.wf(),
            tree.is_member(x_node),
        ensures
            match r {
                Some(s) => tree.is_member(s) && tree.position(s) == tree.position(x_node) + 1,
                None => tree.position(x_node) == tree.view().len() - 1,
            },
            tree.is_successor_of(x_node, r),
    {
        proof {
            tree.lemma_member(x_node);
        }
        let right_node = tree.nodes[x_node].right;
        if right_node.is_some() {
            let m = BstNode::minimum_nodelink(tree, right_node.unwrap());
            proof {
                BstTree::lemma_successor_keys(tree, x_node, Some(m));
            }
            return Some(m);
        }
        let mut current = x_node;
        let mut parent = tree.nodes[x_node].parent;
        loop
            invariant
                tree.wf(),
                tree.is_member(x_node),
                tree.is_member(current),
                current < tree.nodes@.len(),
                parent == tree.nodes@[current as int].parent,
                tree.hi@[current] == tree.pos@[x_node] + 1,
            decreases tree.order@.len() - (tree.hi@[current] - tree.lo@[current]),
        {
            proof {
                tree.lemma_member(current);
            }
            match parent {
                Some(p) => {
                    proof {
                        tree.lemma_member(p);
                    }
                    let p_node = tree.nodes[p];
                    if let Some(p_right) = p_node.right {
                        if p_right == current {
                            current = p;
                            parent = p_node.parent;
                        } else {
                            proof {
                                BstTree::lemma_successor_keys(tree, x_node, Some(p));
                            }
                            return Some(p);
                        }
                    } else if let Some(p_left) = p_node.left {
                        if p_left == current {
                            proof {
                                BstTree::lemma_successor_keys(tree, x_node, Some(p));
                            }
                            return Some(p);
                        } else {
                            current = p;
                            parent = p_node.parent;
                        }
                    } else {
                        current = p;
                        parent = p_node.parent;
                    }
                },
                None => {
                    proof {
                        tree.lemma_root();
                        BstTree::lemma_successor_keys(tree, x_node, None);
                    }
                    return None;
                },
            }
        }
    }

    /// True when the handle is absent, or its node lacks a parent or a child.
    #[allow(dead_code)]
    fn is_nil(tree: &BstTree, node: &Option<BstNodeLink>) -> (r: bool)
        requires
            node matches Some(x) ==> x < tree.arena().len(),
        ensures
            r == match *node {
                None => true,
                Some(x) => {
                    let n = tree.arena()[x as int];
                    n.parent is None || n.left is None || n.right is None
                },
            },
    {
        match node {
            None => true,
            Some(x) => {
                let n = tree.nodes[*x];
                if n.parent.is_none() || n.left.is_none() || n.right.is_none() {
                    return true;
                }
                false
            },
        }
    }

    /// True when both handles are absent, or both are present with equal keys.
    #[allow(dead_code)]
    fn is_node_match_option(
        tree: &BstTree,
        node1: Option<BstNodeLink>,
        node2: Option<BstNodeLink>,
    ) -> (r: bool)
        requires
            node1 matches Some(a) ==> a < tree.arena().len(),
            node2 matches Some(b) ==> b < tree.arena().len(),
        ensures
            r == match (node1, node2) {
                (None, None) => true,
                (Some(a), Some(b)) => tree.key_of(a) == tree.key_of(b),
                _ => false,
            },
    {
        if node1.is_none() && node2.is_none() {
            return true;
        }
        if let Some(a) = node1 {
            if let Some(b) = node2 {
                return tree.nodes[a].key == tree.nodes[b].key;
            }
        }
        false
    }
}

impl BstTree {
    /// `r` holds the smallest key of the tree above the key of `x`, or is `None`
    /// when the key of `x` is the largest.
    pub open spec fn is_successor_of(&self, x: BstNodeLink, r: Option<BstNodeLink>) -> bool {
        let keys = self.view();
        let k = self.key_of(x);
        match r {
            Some(s) => {
                &&& keys.contains(self.key_of(s))
                &&& k < self.key_of(s)
                &&& forall|j: i32| keys.contains(j) && k < j ==> self.key_of(s) <= j
            },
            None => forall|j: i32| keys.contains(j) ==> j <= k,
        }
    }

    /// The next position in the in-order sequence holds the next key.
    proof fn lemma_successor_keys(tree: &BstTree, x: BstNodeLink, r: Option<BstNodeLink>)
        requires
            tree.wf(),
            tree.is_member(x),
            match r {
                Some(s) => tree.is_member(s) && tree.position(s) == tree.position(x) + 1,
                None => tree.position(x) == tree.view().len() - 1,
            },
        ensures
            tree.is_successor_of(x, r),
    {
        let v = tree.view();
        let px = tree.pos@[x];
        tree.lemma_member(x);
        assert(v[px] == tree.key_of(x));
        match r {
            Some(s) => {
                tree.lemma_member(s);
                assert(v[px + 1] == tree.key_of(s));
                tree.lemma_sorted(px, px + 1);
                assert forall|j: i32| v.contains(j) && tree.key_of(x) < j implies tree.key_of(s) <= j by {
                    let k = choose|k: int| 0 <= k < v.len() && v[k] == j;
                    if k <= px {
                        if k < px {
                            tree.lemma_sorted(k, px);
                        }
                    } else if k > px + 1 {
                        tree.lemma_sorted(px + 1, k);
                    }
                }
            },
            None => {
                assert forall|j: i32| v.contains(j) implies j <= tree.key_of(x) by {
                    let k = choose|k: int| 0 <= k < v.len() && v[k] == j;
                    if k < px {
                        tree.lemma_sorted(k, px);
                    }
                }
            },
        }
    }

    /// The keys of the tree in in-order sequence, gathered by walking from the
    /// minimum through successive successors.
    pub fn inorder_keys(&self) -> (r: Vec<i32>)
        requires
            self.wf(),
        ensures
            r@ == self.view(),
    {
        let mut out: Vec<i32> = Vec::new();
        proof {
            self.lemma_root();
        }
        let root = match self.root {
            None => {
                assert(out@ =~= self.view());
                return out;
            },
            Some(r) => r,
        };
        let mut cur = BstNode::minimum_nodelink(self, root);
        loop
            invariant
                self.wf(),
                self.is_member(cur),
                out@ =~= self.view().subrange(0, self.pos@[cur]),
            decreases self.order@.len() - self.pos@[cur],
        {
            proof {
                self.lemma_member(cur);
            }
            out.push(self.nodes[cur].key);
            match BstNode::tree_successor(self, cur) {
                Some(s) => {
                    cur = s;
                },
                None => {
                    assert(out@ =~= self.view());
                    return out;
                },
            }
        }
    }
}

} // verus!
