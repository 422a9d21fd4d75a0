use vstd::prelude::*;
use crate::node::{BstNode, BstNodeLink};

verus! {

/// A binary search tree whose nodes live in an arena. Handles are arena indices;
/// nodes that leave the tree stay in the arena but are no longer members.
///
/// The ghost state records the in-order sequence of member handles and, for each
/// member, its position in that sequence and the half-open range of positions
/// that its subtree occupies.
pub struct BstTree {
    pub(crate) nodes: Vec<BstNode>,
    pub(crate) root: Option<BstNodeLink>,
    pub(crate) order: Ghost<Seq<BstNodeLink>>,
    pub(crate) pos: Ghost<Map<BstNodeLink, int>>,
    pub(crate) lo: Ghost<Map<BstNodeLink, int>>,
    pub(crate) hi: Ghost<Map<BstNodeLink, int>>,
}

pub open spec fn strictly_increasing(s: Seq<i32>) -> bool {
    forall|a: int, b: int| 0 <= a < b < s.len() ==> s[a] < s[b]
}

impl BstTree {
    /// Every node ever allocated, members of the tree or not.
    pub open(crate) spec fn arena(&self) -> Seq<BstNode> {
        self.nodes@
    }

    pub open(crate) spec fn root_link(&self) -> Option<BstNodeLink> {
        self.root
    }

    /// The member handles in in-order sequence.
    pub open(crate) spec fn handles(&self) -> Seq<BstNodeLink> {
        self.order@
    }

    /// The ghost bookkeeping: in-order handles, positions and subtree ranges.
    pub open(crate) spec fn layout(&self) -> (
        Seq<BstNodeLink>,
        Map<BstNodeLink, int>,
        Map<BstNodeLink, int>,
        Map<BstNodeLink, int>,
    ) {
        (self.order@, self.pos@, self.lo@, self.hi@)
    }

    pub open(crate) spec fn is_member(&self, i: BstNodeLink) -> bool {
        self.pos@.dom().contains(i)
    }

    pub open spec fn key_of(&self, i: BstNodeLink) -> i32 {
        self.arena()[i as int].key
    }

    /// The position of a member in the in-order sequence.
    pub open(crate) spec fn position(&self, i: BstNodeLink) -> int {
        self.pos@[i]
    }

    /// First position of a member's subtree.
    pub open(crate) spec fn first_of(&self, i: BstNodeLink) -> int {
        self.lo@[i]
    }

    /// One past the last position of a member's subtree.
    pub open(crate) spec fn end_of(&self, i: BstNodeLink) -> int {
        self.hi@[i]
    }

    pub open spec fn key_at(&self, k: int) -> i32 {
        self.arena()[self.handles()[k] as int].key
    }

    /// The keys of the tree in in-order sequence.
    pub open spec fn view(&self) -> Seq<i32> {
        Seq::new(self.handles().len(), |k: int| self.key_at(k))
    }

    /// The keys of a member's subtree in in-order sequence.
    pub open spec fn subtree_keys(&self, i: BstNodeLink) -> Seq<i32> {
        self.view().subrange(self.first_of(i), self.end_of(i))
    }

    pub open(crate) spec fn links_ok(&self, i: BstNodeLink) -> bool {
        let n = self.nodes@[i as int];
        &&& match n.left {
            None => self.lo@[i] == self.pos@[i],
            Some(l) => {
                &&& self.is_member(l)
                &&& self.nodes@[l as int].parent == Some(i)
                &&& self.lo@[l] == self.lo@[i]
                &&& self.hi@[l] == self.pos@[i]
            },
        }
        &&& match n.right {
            None => self.hi@[i] == self.pos@[i] + 1,
            Some(r) => {
                &&& self.is_member(r)
                &&& self.nodes@[r as int].parent == Some(i)
                &&& self.lo@[r] == self.pos@[i] + 1
                &&& self.hi@[r] == self.hi@[i]
            },
        }
        &&& match n.parent {
            None => self.root == Some(i),
            Some(p) => {
                &&& self.is_member(p)
                &&& (self.nodes@[p as int].left == Some(i) || self.nodes@[p as int].right == Some(i))
            },
        }
    }

    pub open(crate) spec fn member_ok(&self, i: BstNodeLink) -> bool {
        let n = self.order@.len() as int;
        &&& 0 <= self.pos@[i] < n
        &&& self.order@[self.pos@[i]] == i
        &&& 0 <= self.lo@[i] <= self.pos@[i] < self.hi@[i] <= n
        &&& self.links_ok(i)
    }

    #[verifier::opaque]
    /// Well-formedness: parent and child links agree, every subtree occupies a
    /// contiguous range of the in-order sequence, and keys strictly increase
    /// along that sequence.
    pub open(crate) spec fn wf(&self) -> bool {
        &&& self.lo@.dom() == self.pos@.dom()
        &&& self.hi@.dom() == self.pos@.dom()
        &&& forall|k: int|
            0 <= k < self.order@.len() ==> {
                &&& #[trigger] self.order@[k] < self.nodes@.len()
                &&& self.is_member(self.order@[k])
                &&& self.pos@[self.order@[k]] == k
            }
        &&& forall|i: BstNodeLink| #[trigger] self.is_member(i) ==> self.member_ok(i)
        &&& match self.root {
            None => self.order@.len() == 0,
            Some(r) => {
                &&& self.is_member(r)
                &&& self.lo@[r] == 0
                &&& self.hi@[r] == self.order@.len()
            },
        }
        &&& forall|a: int, b: int|
            0 <= a < b < self.order@.len() ==> #[trigger] self.key_at(a) < #[trigger] self.key_at(b)
    }

    /// A member is a valid arena index and satisfies the member conditions.
    pub(crate) proof fn lemma_member(&self, i: BstNodeLink)
        requires
            self.wf(),
            self.is_member(i),
        ensures
            self.member_ok(i),
            i < self.nodes@.len(),
            self.nodes@[i as int].left matches Some(l) ==> self.member_ok(l) && self.lo@[i] <= self.lo@[l]
                && self.hi@[l] < self.hi@[i] && l < self.nodes@.len(),
            self.nodes@[i as int].right matches Some(r) ==> self.member_ok(r) && self.lo@[i] < self.lo@[r]
                && self.hi@[r] <= self.hi@[i] && r < self.nodes@.len(),
            self.nodes@[i as int].parent matches Some(p) ==> self.member_ok(p) && self.lo@[p] <= self.lo@[i]
                && self.hi@[i] <= self.hi@[p] && self.hi@[i] - self.lo@[i] < self.hi@[p] - self.lo@[p]
                && p < self.nodes@.len(),
    {
        reveal(BstTree::wf);
        assert(self.member_ok(i));
        assert(self.order@[self.pos@[i]] < self.nodes@.len());
        let n = self.nodes@[i as int];
        if let Some(l) = n.left {
            assert(self.member_ok(l));
            assert(self.order@[self.pos@[l]] < self.nodes@.len());
        }
        if let Some(r) = n.right {
            assert(self.member_ok(r));
            assert(self.order@[self.pos@[r]] < self.nodes@.len());
        }
        if let Some(p) = n.parent {
            assert(self.member_ok(p));
            assert(self.order@[self.pos@[p]] < self.nodes@.len());
        }
    }

    /// The clauses of well-formedness, established one by one.
    pub(crate) proof fn lemma_wf_intro(&self)
        requires
            self.lo@.dom() == self.pos@.dom(),
            self.hi@.dom() == self.pos@.dom(),
            forall|k: int|
                0 <= k < self.order@.len() ==> {
                    &&& #[trigger] self.order@[k] < self.nodes@.len()
                    &&& self.is_member(self.order@[k])
                    &&& self.pos@[self.order@[k]] == k
                },
            forall|i: BstNodeLink| #[trigger] self.is_member(i) ==> self.member_ok(i),
            match self.root {
                None => self.order@.len() == 0,
                Some(r) => {
                    &&& self.is_member(r)
                    &&& self.lo@[r] == 0
                    &&& self.hi@[r] == self.order@.len()
                },
            },
            forall|a: int, b: int|
                0 <= a < b < self.order@.len() ==> #[trigger] self.key_at(a) < #[trigger] self.key_at(
                    b,
                ),
        ensures
            self.wf(),
    {
        reveal(BstTree::wf);
    }

    /// Keys strictly increase along the in-order sequence.
    pub(crate) proof fn lemma_sorted(&self, a: int, b: int)
        requires
            self.wf(),
            0 <= a < b < self.order@.len(),
        ensures
            self.key_at(a) < self.key_at(b),
    {
        reveal(BstTree::wf);
    }

    /// Each position of the in-order sequence holds a member.
    pub(crate) proof fn lemma_order(&self, k: int)
        requires
            self.wf(),
            0 <= k < self.order@.len(),
        ensures
            self.order@[k] < self.nodes@.len(),
            self.is_member(self.order@[k]),
            self.pos@[self.order@[k]] == k,
    {
        reveal(BstTree::wf);
    }

    /// The root spans the whole in-order sequence.
    pub(crate) proof fn lemma_root(&self)
        requires
            self.wf(),
        ensures
            self.lo@.dom() == self.pos@.dom(),
            self.hi@.dom() == self.pos@.dom(),
            match self.root {
                None => self.order@.len() == 0,
                Some(r) => {
                    &&& self.is_member(r)
                    &&& self.lo@[r] == 0
                    &&& self.hi@[r] == self.order@.len()
                },
            },
    {
        reveal(BstTree::wf);
    }

    /// What well-formedness says of handles, positions and subtree ranges, in
    /// the terms that the contracts use: the handles list the members once each,
    /// in in-order sequence, every member's subtree is a range of positions
    /// around its own, and the root's subtree is the whole sequence.
    pub proof fn lemma_model(&self)
        requires
            self.wf(),
        ensures
            forall|k: int|
                0 <= k < self.handles().len() ==> {
                    &&& self.is_member(#[trigger] self.handles()[k])
                    &&& self.position(self.handles()[k]) == k
                    &&& self.handles()[k] < self.arena().len()
                },
            forall|i: BstNodeLink|
                #[trigger] self.is_member(i) ==> {
                    &&& 0 <= self.first_of(i) <= self.position(i) < self.end_of(i) <= self.handles().len()
                    &&& self.handles()[self.position(i)] == i
                    &&& self.handles().contains(i)
                },
            match self.root_link() {
                None => self.handles().len() == 0,
                Some(r) => {
                    &&& self.is_member(r)
                    &&& self.first_of(r) == 0
                    &&& self.end_of(r) == self.handles().len()
                    &&& self.subtree_keys(r) == self.view()
                },
            },
    {
        reveal(BstTree::wf);
        assert forall|i: BstNodeLink| #[trigger] self.is_member(i) implies self.handles().contains(i) by {
            assert(self.member_ok(i));
            assert(self.handles()[self.position(i)] == i);
        }
        if let Some(r) = self.root {
            assert(self.subtree_keys(r) =~= self.view());
        }
    }

    /// An empty tree over an empty arena.
    pub fn new() -> (r: BstTree)
        ensures
            r.wf(),
            r.root_link() is None,
            r.arena().len() == 0,
            r.view().len() == 0,
    {
        reveal(BstTree::wf);
        BstTree {
            nodes: Vec::new(),
            root: None,
            order: Ghost(Seq::empty()),
            pos: Ghost(Map::empty()),
            lo: Ghost(Map::empty()),
            hi: Ghost(Map::empty()),
        }
    }

    /// The root of the tree; `None` when the tree is empty.
    pub fn root(&self) -> (r: Option<BstNodeLink>)
        ensures
            r == self.root_link(),
    {
        self.root
    }

    /// Number of nodes in the arena, members of the tree or not.
    pub fn arena_len(&self) -> (r: usize)
        ensures
            r == self.arena().len(),
    {
        self.nodes.len()
    }

    /// A copy of the node behind a handle.
    pub fn node(&self, i: BstNodeLink) -> (r: BstNode)
        requires
            i < self.arena().len(),
        ensures
            r == self.arena()[i as int],
    {
        self.nodes[i]
    }

    /// Appends a node to the arena. It is not linked into the tree.
    pub(crate) fn push_node(&mut self, n: BstNode) -> (r: BstNodeLink)
        ensures
            r == old(self).arena().len(),
            final(self).arena() == old(self).arena().push(n),
            final(self).root == old(self).root,
            final(self).order == old(self).order,
            final(self).pos == old(self).pos,
            final(self).lo == old(self).lo,
            final(self).hi == old(self).hi,
            old(self).wf() ==> final(self).wf(),
    {
        reveal(BstTree::wf);
        let r = self.nodes.len();
        self.nodes.push(n);
        proof {
            if old(self).wf() {
                assert forall|i: BstNodeLink| #[trigger] self.is_member(i) implies self.member_ok(i) by {
                    assert(old(self).is_member(i));
                    assert(old(self).member_ok(i));
                    let k = self.pos@[i];
                    assert(old(self).order@[k] < old(self).nodes@.len());
                    assert(self.nodes@[i as int] == old(self).nodes@[i as int]);
                    let n = self.nodes@[i as int];
                    if let Some(l) = n.left {
                        assert(old(self).member_ok(l));
                        assert(old(self).order@[self.pos@[l]] < old(self).nodes@.len());
                    }
                    if let Some(r) = n.right {
                        assert(old(self).member_ok(r));
                        assert(old(self).order@[self.pos@[r]] < old(self).nodes@.len());
                    }
                    if let Some(p) = n.parent {
                        assert(old(self).member_ok(p));
                        assert(old(self).order@[self.pos@[p]] < old(self).nodes@.len());
                    }
                }
                assert forall|a: int, b: int|
                    0 <= a < b < self.order@.len() implies #[trigger] self.key_at(a) < #[trigger] self.key_at(b) by {
                    assert(old(self).key_at(a) < old(self).key_at(b));
                    assert(old(self).order@[a] < old(self).nodes@.len());
                    assert(old(self).order@[b] < old(self).nodes@.len());
                }
            }
        }
        r
    }
}

} // verus!
