use vstd::prelude::*;

use crate::invalidation::{DirtyFlags, DirtyReason};

verus! {

/// A node of the compose tree, by its stable id.
#[derive(Debug, Clone, Copy, PartialEq, Eq, Structural, Hash)]
pub struct NodeId(pub u64);

/// A node of the compose tree in preorder: its id, the position of its
/// parent (before its own), and whether it holds children (container or
/// stack) so that a structural change stays within it.
#[derive(Debug, Clone, Copy, PartialEq, Eq, Structural)]
pub struct TreeNode {
    pub id: NodeId,
    pub parent: Option<usize>,
    pub container_like: bool,
}

/// A preorder tree: ids distinct, and every parent listed before its child.
pub open spec fn tree_wf(nodes: Seq<TreeNode>) -> bool {
    &&& forall|i: int, j: int| 0 <= i < nodes.len() && 0 <= j < nodes.len() && i != j ==> (#[trigger] nodes[i]).id
        != (#[trigger] nodes[j]).id
    &&& forall|i: int| 0 <= i < nodes.len() && (#[trigger] nodes[i]).parent is Some ==> nodes[i].parent->0 < i
}

/// The ids of the strict ancestors of node `i`, nearest first.
pub open spec fn ancestors(nodes: Seq<TreeNode>, i: int) -> Seq<NodeId>
    decreases i,
{
    if 0 <= i < nodes.len() {
        match nodes[i].parent {
            Some(p) => if p < i {
                seq![nodes[p as int].id] + ancestors(nodes, p as int)
            } else {
                Seq::empty()
            },
            None => Seq::empty(),
        }
    } else {
        Seq::empty()
    }
}

/// Where node `id` is listed, if it is.
pub open spec fn node_index(nodes: Seq<TreeNode>, id: NodeId) -> Option<int> {
    if exists|i: int| 0 <= i < nodes.len() && nodes[i].id == id {
        Some(choose|i: int| 0 <= i < nodes.len() && nodes[i].id == id)
    } else {
        None
    }
}

/// Whether `ancestor` is `node` or one of its ancestors.
pub open spec fn is_ancestor_or_same_spec(nodes: Seq<TreeNode>, ancestor: NodeId, node: NodeId) -> bool {
    ancestor == node || match node_index(nodes, node) {
        Some(i) => ancestors(nodes, i).contains(ancestor),
        None => false,
    }
}

/// No root lies inside another root's subtree, and none is listed twice.
pub open spec fn roots_independent(nodes: Seq<TreeNode>, roots: Seq<NodeId>) -> bool {
    forall|i: int, j: int|
        0 <= i < roots.len() && 0 <= j < roots.len() && i != j ==> !is_ancestor_or_same_spec(
            nodes,
            #[trigger] roots[i],
            #[trigger] roots[j],
        )
}

/// Whether some root is `node` or one of its ancestors.
pub open spec fn covered(nodes: Seq<TreeNode>, roots: Seq<NodeId>, node: NodeId) -> bool {
    exists|i: int| 0 <= i < roots.len() && is_ancestor_or_same_spec(nodes, #[trigger] roots[i], node)
}

/// The ancestors of a node's parent are the node's ancestors after the parent.
pub proof fn lemma_ancestors_parent(nodes: Seq<TreeNode>, i: int)
    requires
        tree_wf(nodes),
        0 <= i < nodes.len(),
        nodes[i].parent is Some,
    ensures
        ancestors(nodes, i) == seq![nodes[nodes[i].parent->0 as int].id] + ancestors(nodes, nodes[i].parent->0 as int),
{
}

/// A listed node's index is where it is listed.
pub proof fn lemma_node_index(nodes: Seq<TreeNode>, i: int)
    requires
        tree_wf(nodes),
        0 <= i < nodes.len(),
    ensures
        node_index(nodes, nodes[i].id) == Some(i),
{
    let j = choose|j: int| 0 <= j < nodes.len() && nodes[j].id == nodes[i].id;
    assert(nodes[j].id == nodes[i].id);
}

/// Every ancestor of a node is a listed node whose own ancestors follow it
/// in the node's list.
pub proof fn lemma_ancestor_listed(nodes: Seq<TreeNode>, i: int, k: int)
    requires
        tree_wf(nodes),
        0 <= i < nodes.len(),
        0 <= k < ancestors(nodes, i).len(),
    ensures
        exists|j: int|
            0 <= j < i && nodes[j].id == ancestors(nodes, i)[k] && ancestors(nodes, j) == ancestors(nodes, i).skip(k + 1),
    decreases i,
{
    let p = nodes[i].parent->0 as int;
    if k == 0 {
        assert(ancestors(nodes, i).skip(1) =~= ancestors(nodes, p));
    } else {
        lemma_ancestor_listed(nodes, p, k - 1);
        let j = choose|j: int|
            0 <= j < p && nodes[j].id == ancestors(nodes, p)[k - 1] && ancestors(nodes, j) == ancestors(
                nodes,
                p,
            ).skip(k);
        assert(ancestors(nodes, i).skip(k + 1) =~= ancestors(nodes, p).skip(k));
        assert(nodes[j].id == ancestors(nodes, i)[k]);
    }
}

/// Being an ancestor-or-self is transitive.
pub proof fn lemma_ancestor_or_same_trans(nodes: Seq<TreeNode>, a: NodeId, b: NodeId, c: NodeId)
    requires
        tree_wf(nodes),
        is_ancestor_or_same_spec(nodes, a, b),
        is_ancestor_or_same_spec(nodes, b, c),
    ensures
        is_ancestor_or_same_spec(nodes, a, c),
{
    if a != b && b != c {
        let ic = node_index(nodes, c)->0;
        let ib = node_index(nodes, b)->0;
        let kb = choose|k: int| 0 <= k < ancestors(nodes, ic).len() && ancestors(nodes, ic)[k] == b;
        lemma_ancestor_listed(nodes, ic, kb);
        let j = choose|j: int|
            0 <= j < ic && nodes[j].id == ancestors(nodes, ic)[kb] && ancestors(nodes, j) == ancestors(
                nodes,
                ic,
            ).skip(kb + 1);
        lemma_node_index(nodes, j);
        assert(j == ib);
        let ka = choose|k: int| 0 <= k < ancestors(nodes, ib).len() && ancestors(nodes, ib)[k] == a;
        assert(ancestors(nodes, ic)[kb + 1 + ka] == a);
    }
}

/// The dirty state of a retained compose tree: per-node flags, the whole
/// tree's flags, and the roots from which layout must run again.
#[derive(Debug, Clone)]
pub struct RetainedDirtyState {
    root: NodeId,
    nodes: Vec<TreeNode>,
    flags: Vec<DirtyFlags>,
    roots: Vec<NodeId>,
    dirty: DirtyFlags,
}

impl RetainedDirtyState {
    pub closed spec fn root_id(&self) -> NodeId {
        self.root
    }

    pub closed spec fn nodes(&self) -> Seq<TreeNode> {
        self.nodes@
    }

    pub closed spec fn node_flags(&self) -> Seq<DirtyFlags> {
        self.flags@
    }

    pub closed spec fn roots(&self) -> Seq<NodeId> {
        self.roots@
    }

    pub closed spec fn tree_flags(&self) -> DirtyFlags {
        self.dirty
    }

    /// The flags of node `id` (clean for an unknown node).
    pub open spec fn flags_of(&self, id: NodeId) -> DirtyFlags {
        match node_index(self.nodes(), id) {
            Some(i) => self.node_flags()[i],
            None => DirtyFlags::spec_clean(),
        }
    }

    pub open spec fn wf(&self) -> bool {
        &&& tree_wf(self.nodes())
        &&& self.node_flags().len() == self.nodes().len()
        &&& roots_independent(self.nodes(), self.roots())
    }

    /// The state of a freshly indexed tree: nothing dirty.
    pub fn new(root: NodeId, nodes: Vec<TreeNode>) -> (state: Self)
        requires
            tree_wf(nodes@),
        ensures
            state.wf(),
            state.root_id() == root,
            state.nodes() == nodes@,
            state.roots().len() == 0,
            state.tree_flags() == DirtyFlags::spec_clean(),
            forall|i: int| 0 <= i < nodes@.len() ==> #[trigger] state.node_flags()[i] == DirtyFlags::spec_clean(),
    {
        let mut flags: Vec<DirtyFlags> = Vec::new();
        let mut i: usize = 0;
        while i < nodes.len()
            invariant
                0 <= i <= nodes@.len(),
                flags@.len() == i,
                forall|k: int| 0 <= k < i ==> #[trigger] flags@[k] == DirtyFlags::spec_clean(),
            decreases nodes@.len() - i,
        {
            flags.push(DirtyFlags::clean());
            i = i + 1;
        }
        RetainedDirtyState { root, nodes, flags, roots: Vec::new(), dirty: DirtyFlags::clean() }
    }

    /// Where node `id` is listed, if it is.
    fn index_of(&self, id: NodeId) -> (r: Option<usize>)
        requires
            tree_wf(self.nodes()),
        ensures
            r matches Some(i) ==> i < self.nodes().len() && node_index(self.nodes(), id) == Some(i as int),
            r is None ==> node_index(self.nodes(), id) is None,
    {
        let mut i: usize = 0;
        while i < self.nodes.len()
            invariant
                0 <= i <= self.nodes@.len(),
                tree_wf(self.nodes@),
                forall|k: int| 0 <= k < i ==> self.nodes@[k].id != id,
            decreases self.nodes@.len() - i,
        {
            if self.nodes[i].id == id {
                proof {
                    lemma_node_index(self.nodes@, i as int);
                }
                return Some(i);
            }
            i = i + 1;
        }
        None
    }

    /// Whether `ancestor` is `node_id` or one of its ancestors.
    pub fn is_ancestor_or_same(&self, ancestor: NodeId, node_id: NodeId) -> (b: bool)
        requires
            self.wf(),
        ensures
            b == is_ancestor_or_same_spec(self.nodes(), ancestor, node_id),
    {
        if ancestor == node_id {
            return true;
        }
        let start = self.index_of(node_id);
        match start {
            None => false,
            Some(s) => {
                let ghost nodes = self.nodes@;
                proof {
                    assert(node_index(nodes, node_id) == Some(s as int));
                    assert(ancestors(nodes, s as int).skip(0) =~= ancestors(nodes, s as int));
                }
                let mut cur: usize = s;
                let ghost mut k: int = 0;
                loop
                    invariant
                        nodes == self.nodes@,
                        tree_wf(nodes),
                        ancestor != node_id,
                        node_index(nodes, node_id) == Some(s as int),
                        0 <= cur < nodes.len(),
                        0 <= k <= ancestors(nodes, s as int).len(),
                        ancestors(nodes, cur as int) == ancestors(nodes, s as int).skip(k),
                        forall|q: int| 0 <= q < k ==> ancestors(nodes, s as int)[q] != ancestor,
                    decreases cur,
                {
                    match self.nodes[cur].parent {
                        None => {
                            proof {
                                assert(ancestors(nodes, s as int).skip(k).len() == 0);
                                assert(k == ancestors(nodes, s as int).len());
                                assert forall|q: int| 0 <= q < ancestors(nodes, s as int).len() implies ancestors(
                                    nodes,
                                    s as int,
                                )[q] != ancestor by {}
                            }
                            return false;
                        },
                        Some(p) => {
                            proof {
                                lemma_ancestors_parent(nodes, cur as int);
                                assert(ancestors(nodes, cur as int).len() > 0);
                                assert(ancestors(nodes, s as int).skip(k)[0] == ancestors(nodes, s as int)[k]);
                                assert(ancestors(nodes, s as int)[k] == nodes[p as int].id);
                                assert(ancestors(nodes, cur as int).skip(1) =~= ancestors(nodes, p as int));
                                assert(ancestors(nodes, s as int).skip(k + 1) =~= ancestors(nodes, s as int).skip(k).skip(1));
                                assert(ancestors(nodes, p as int) =~= ancestors(nodes, s as int).skip(k + 1));
                            }
                            if self.nodes[p].id == ancestor {
                                proof {
                                    assert(ancestors(nodes, s as int).contains(ancestor));
                                }
                                return true;
                            }
                            cur = p;
                            proof {
                                k = k + 1;
                            }
                        },
                    }
                }
            },
        }
    }

    /// Whether some node of `set` other than `ancestor` lies in its subtree.
    pub fn has_descendant_in(&self, ancestor: NodeId, set: &Vec<NodeId>) -> (b: bool)
        requires
            self.wf(),
        ensures
            b == exists|i: int|
                0 <= i < set@.len() && set@[i] != ancestor && is_ancestor_or_same_spec(
                    self.nodes(),
                    ancestor,
                    #[trigger] set@[i],
                ),
    {
        let mut i: usize = 0;
        while i < set.len()
            invariant
                0 <= i <= set@.len(),
                self.wf(),
                forall|k: int|
                    0 <= k < i ==> !(set@[k] != ancestor && is_ancestor_or_same_spec(
                        self.nodes(),
                        ancestor,
                        #[trigger] set@[k],
                    )),
            decreases set@.len() - i,
        {
            let candidate = set[i];
            if candidate != ancestor && self.is_ancestor_or_same(ancestor, candidate) {
                return true;
            }
            i = i + 1;
        }
        false
    }
}

/// The layout root of a node: its parent, or itself when it has none.
pub open spec fn layout_root_spec(nodes: Seq<TreeNode>, id: NodeId) -> NodeId {
    match node_index(nodes, id) {
        Some(i) => match nodes[i].parent {
            Some(p) => nodes[p as int].id,
            None => id,
        },
        None => id,
    }
}

/// The root from which a structural change of a node is laid out again:
/// the node itself when it holds children, else its layout root.
pub open spec fn structure_root_spec(nodes: Seq<TreeNode>, id: NodeId) -> NodeId {
    match node_index(nodes, id) {
        Some(i) => if nodes[i].container_like {
            id
        } else {
            layout_root_spec(nodes, id)
        },
        None => layout_root_spec(nodes, id),
    }
}

/// The roots after `candidate` is added: unchanged when a root already
/// covers it; otherwise the roots inside its subtree give way to it.
pub open spec fn roots_with(nodes: Seq<TreeNode>, roots: Seq<NodeId>, candidate: NodeId) -> Seq<NodeId> {
    if covered(nodes, roots, candidate) {
        roots
    } else {
        roots.filter(|r: NodeId| !is_ancestor_or_same_spec(nodes, candidate, r)).push(candidate)
    }
}

/// Whether node `k` is node `i` or one of its ancestors.
pub open spec fn on_path(nodes: Seq<TreeNode>, i: int, k: int) -> bool {
    k == i || ancestors(nodes, i).contains(nodes[k].id)
}

/// The ids of the nodes with pending work, in node order.
pub open spec fn dirty_ids(nodes: Seq<TreeNode>, flags: Seq<DirtyFlags>) -> Seq<NodeId>
    decreases nodes.len(),
{
    if nodes.len() == 0 || flags.len() == 0 {
        Seq::empty()
    } else if !flags.last().spec_is_clean() {
        dirty_ids(nodes.drop_last(), flags.drop_last()).push(nodes.last().id)
    } else {
        dirty_ids(nodes.drop_last(), flags.drop_last())
    }
}

/// Adding a candidate keeps the roots independent, covers the candidate,
/// and keeps covered every node covered before.
pub proof fn lemma_roots_with(nodes: Seq<TreeNode>, roots: Seq<NodeId>, candidate: NodeId)
    requires
        tree_wf(nodes),
        roots_independent(nodes, roots),
    ensures
        roots_independent(nodes, roots_with(nodes, roots, candidate)),
        covered(nodes, roots_with(nodes, roots, candidate), candidate),
        forall|x: NodeId| covered(nodes, roots, x) ==> covered(nodes, roots_with(nodes, roots, candidate), x),
{
    if !covered(nodes, roots, candidate) {
        let pred = |r: NodeId| !is_ancestor_or_same_spec(nodes, candidate, r);
        let kept = roots.filter(pred);
        let out = kept.push(candidate);
        assert forall|i: int, j: int|
            0 <= i < out.len() && 0 <= j < out.len() && i != j implies !is_ancestor_or_same_spec(
                nodes,
                #[trigger] out[i],
                #[trigger] out[j],
            ) by {
            if i < kept.len() && j < kept.len() {
                lemma_filter_distinct(roots, pred, i, j);
                let (a, b) = choose|a: int, b: int|
                    0 <= a < roots.len() && 0 <= b < roots.len() && a != b && roots[a] == kept[i] && roots[b] == kept[j];
                assert(!is_ancestor_or_same_spec(nodes, roots[a], roots[b]));
            } else if i == kept.len() {
                lemma_filter_member(roots, pred, j);
                let b = choose|b: int| 0 <= b < roots.len() && roots[b] == kept[j];
                assert(pred(roots[b]));
            } else {
                lemma_filter_member(roots, pred, i);
                let a = choose|a: int| 0 <= a < roots.len() && roots[a] == kept[i];
                if is_ancestor_or_same_spec(nodes, roots[a], candidate) {
                    assert(covered(nodes, roots, candidate));
                }
            }
        }
        assert(out[kept.len() as int] == candidate);
        assert forall|x: NodeId| covered(nodes, roots, x) implies covered(nodes, out, x) by {
            let a = choose|a: int| 0 <= a < roots.len() && is_ancestor_or_same_spec(nodes, #[trigger] roots[a], x);
            if pred(roots[a]) {
                lemma_filter_keeps(roots, pred, a);
                let b = choose|b: int| 0 <= b < kept.len() && kept[b] == roots[a];
                assert(out[b] == roots[a]);
            } else {
                lemma_ancestor_or_same_trans(nodes, candidate, roots[a], x);
            }
        }
    }
}

/// An element that passes the filter is kept.
pub proof fn lemma_filter_keeps(s: Seq<NodeId>, pred: spec_fn(NodeId) -> bool, a: int)
    requires
        0 <= a < s.len(),
        pred(s[a]),
    ensures
        exists|b: int| 0 <= b < s.filter(pred).len() && s.filter(pred)[b] == s[a],
    decreases s.len(),
{
    reveal_with_fuel(Seq::filter, 1);
    if a == s.len() - 1 {
        assert(s.filter(pred) == s.drop_last().filter(pred).push(s.last()));
        assert(s.filter(pred)[s.filter(pred).len() - 1] == s[a]);
    } else {
        lemma_filter_keeps(s.drop_last(), pred, a);
        let b = choose|b: int| 0 <= b < s.drop_last().filter(pred).len() && s.drop_last().filter(pred)[b] == s.drop_last()[a];
        if pred(s.last()) {
            assert(s.filter(pred) == s.drop_last().filter(pred).push(s.last()));
        } else {
            assert(s.filter(pred) == s.drop_last().filter(pred));
        }
        assert(s.filter(pred)[b] == s[a]);
    }
}

/// Two positions of a filtered sequence come from two positions of the
/// sequence.
pub proof fn lemma_filter_distinct(s: Seq<NodeId>, pred: spec_fn(NodeId) -> bool, i: int, j: int)
    requires
        0 <= i < s.filter(pred).len(),
        0 <= j < s.filter(pred).len(),
        i != j,
    ensures
        exists|a: int, b: int|
            0 <= a < s.len() && 0 <= b < s.len() && a != b && s[a] == s.filter(pred)[i] && s[b] == s.filter(pred)[j],
    decreases s.len(),
{
    reveal_with_fuel(Seq::filter, 1);
    let f0 = s.drop_last().filter(pred);
    if pred(s.last()) {
        assert(s.filter(pred) == f0.push(s.last()));
        if i < f0.len() && j < f0.len() {
            lemma_filter_distinct(s.drop_last(), pred, i, j);
            let (a, b) = choose|a: int, b: int|
                0 <= a < s.drop_last().len() && 0 <= b < s.drop_last().len() && a != b && s.drop_last()[a] == f0[i]
                    && s.drop_last()[b] == f0[j];
            assert(s[a] == s.drop_last()[a] && s[b] == s.drop_last()[b]);
        } else if i < f0.len() {
            lemma_filter_member(s.drop_last(), pred, i);
            let a = choose|a: int| 0 <= a < s.drop_last().len() && s.drop_last()[a] == f0[i];
            assert(s[a] == s.drop_last()[a]);
            assert(s[s.len() - 1] == s.filter(pred)[j]);
        } else {
            lemma_filter_member(s.drop_last(), pred, j);
            let b = choose|b: int| 0 <= b < s.drop_last().len() && s.drop_last()[b] == f0[j];
            assert(s[b] == s.drop_last()[b]);
            assert(s[s.len() - 1] == s.filter(pred)[i]);
        }
    } else {
        assert(s.filter(pred) == f0);
        lemma_filter_distinct(s.drop_last(), pred, i, j);
        let (a, b) = choose|a: int, b: int|
            0 <= a < s.drop_last().len() && 0 <= b < s.drop_last().len() && a != b && s.drop_last()[a] == f0[i]
                && s.drop_last()[b] == f0[j];
        assert(s[a] == s.drop_last()[a] && s[b] == s.drop_last()[b]);
    }
}

/// Each element of a filtered sequence comes from the sequence.
pub proof fn lemma_filter_member(s: Seq<NodeId>, pred: spec_fn(NodeId) -> bool, i: int)
    requires
        0 <= i < s.filter(pred).len(),
    ensures
        exists|a: int| 0 <= a < s.len() && s[a] == s.filter(pred)[i],
    decreases s.len(),
{
    reveal_with_fuel(Seq::filter, 1);
    let f0 = s.drop_last().filter(pred);
    if pred(s.last()) {
        assert(s.filter(pred) == f0.push(s.last()));
        if i < f0.len() {
            lemma_filter_member(s.drop_last(), pred, i);
            let a = choose|a: int| 0 <= a < s.drop_last().len() && s.drop_last()[a] == f0[i];
            assert(s[a] == s.drop_last()[a]);
        } else {
            assert(s[s.len() - 1] == s.filter(pred)[i]);
        }
    } else {
        assert(s.filter(pred) == f0);
        lemma_filter_member(s.drop_last(), pred, i);
        let a = choose|a: int| 0 <= a < s.drop_last().len() && s.drop_last()[a] == f0[i];
        assert(s[a] == s.drop_last()[a]);
    }
}

impl RetainedDirtyState {
    /// The flags the whole tree carries.
    pub fn dirty(&self) -> (flags: DirtyFlags)
        ensures
            flags == self.tree_flags(),
    {
        self.dirty
    }

    /// Node `node_id`'s parent, or the node itself at the top.
    fn layout_root_for(&self, node_id: NodeId) -> (r: NodeId)
        requires
            self.wf(),
        ensures
            r == layout_root_spec(self.nodes(), node_id),
    {
        match self.index_of(node_id) {
            Some(i) => match self.nodes[i].parent {
                Some(p) => {
                    proof {
                        assert(self.nodes@[i as int].parent->0 < i);
                    }
                    self.nodes[p].id
                },
                None => node_id,
            },
            None => node_id,
        }
    }

    /// Where a structural change of `node_id` is laid out again from.
    fn structure_root_for(&self, node_id: NodeId) -> (r: NodeId)
        requires
            self.wf(),
        ensures
            r == structure_root_spec(self.nodes(), node_id),
    {
        match self.index_of(node_id) {
            Some(i) => if self.nodes[i].container_like {
                node_id
            } else {
                self.layout_root_for(node_id)
            },
            None => self.layout_root_for(node_id),
        }
    }

    /// Adds `candidate` to the layout roots, unless a root already covers
    /// it; roots inside its subtree give way to it.
    fn insert_layout_dirty_root(&mut self, candidate: NodeId)
        requires
            old(self).wf(),
        ensures
            final(self).wf(),
            final(self).roots() == roots_with(old(self).nodes(), old(self).roots(), candidate),
            final(self).nodes() == old(self).nodes(),
            final(self).node_flags() == old(self).node_flags(),
            final(self).tree_flags() == old(self).tree_flags(),
            final(self).root_id() == old(self).root_id(),
    {
        proof {
            lemma_roots_with(self.nodes@, self.roots@, candidate);
        }
        let n = self.roots.len();
        let mut i: usize = 0;
        while i < n
            invariant
                0 <= i <= n,
                n == self.roots@.len(),
                self.wf(),
                forall|k: int| 0 <= k < i ==> !is_ancestor_or_same_spec(self.nodes(), #[trigger] self.roots@[k], candidate),
            decreases n - i,
        {
            if self.is_ancestor_or_same(self.roots[i], candidate) {
                proof {
                    assert(covered(self.nodes(), self.roots(), candidate));
                }
                return;
            }
            i = i + 1;
        }
        let ghost pred = |r: NodeId| !is_ancestor_or_same_spec(self.nodes(), candidate, r);
        let mut kept: Vec<NodeId> = Vec::new();
        let mut j: usize = 0;
        while j < n
            invariant
                0 <= j <= n,
                n == self.roots@.len(),
                self.wf(),
                pred == (|r: NodeId| !is_ancestor_or_same_spec(self.nodes(), candidate, r)),
                kept@ == self.roots@.take(j as int).filter(pred),
            decreases n - j,
        {
            proof {
                reveal_with_fuel(Seq::filter, 1);
                assert(self.roots@.take(j + 1).drop_last() =~= self.roots@.take(j as int));
            }
            let r = self.roots[j];
            if !self.is_ancestor_or_same(candidate, r) {
                kept.push(r);
            }
            j = j + 1;
        }
        proof {
            assert(self.roots@.take(n as int) =~= self.roots@);
            assert(!covered(self.nodes(), self.roots(), candidate));
        }
        kept.push(candidate);
        self.roots = kept;
    }

    /// Records that the whole tree needs work for `reason`; anything but a
    /// repaint makes the root the only layout root.
    pub fn mark_dirty(&mut self, reason: DirtyReason)
        requires
            old(self).wf(),
        ensures
            final(self).wf(),
            final(self).tree_flags() == old(self).tree_flags().marked(reason),
            final(self).nodes() == old(self).nodes(),
            final(self).root_id() == old(self).root_id(),
            final(self).node_flags() == match node_index(old(self).nodes(), old(self).root_id()) {
                Some(i) => old(self).node_flags().update(i, old(self).node_flags()[i].marked(reason)),
                None => old(self).node_flags(),
            },
            final(self).roots() == if reason == DirtyReason::Paint {
                old(self).roots()
            } else {
                seq![old(self).root_id()]
            },
    {
        self.dirty.mark(reason);
        match self.index_of(self.root) {
            Some(i) => {
                let mut f = self.flags[i];
                f.mark(reason);
                self.flags.set(i, f);
            },
            None => {},
        }
        if reason != DirtyReason::Paint {
            let mut roots: Vec<NodeId> = Vec::new();
            roots.push(self.root);
            self.roots = roots;
        }
    }

    /// Records that node `node_id` needs work for `reason`: a repaint marks
    /// the node alone; anything else marks the node and its ancestors and
    /// adds the node (for a structural change, its structure root) to the
    /// layout roots.
    pub fn mark_node_dirty(&mut self, node_id: NodeId, reason: DirtyReason)
        requires
            old(self).wf(),
        ensures
            final(self).wf(),
            final(self).tree_flags() == old(self).tree_flags().marked(reason),
            final(self).nodes() == old(self).nodes(),
            final(self).root_id() == old(self).root_id(),
            final(self).node_flags().len() == old(self).node_flags().len(),
            reason == DirtyReason::Paint ==> final(self).roots() == old(self).roots() && final(self).node_flags()
                == match node_index(old(self).nodes(), node_id) {
                Some(i) => old(self).node_flags().update(i, old(self).node_flags()[i].marked(reason)),
                None => old(self).node_flags(),
            },
            reason != DirtyReason::Paint ==> {
                let candidate = if reason == DirtyReason::Structure {
                    structure_root_spec(old(self).nodes(), node_id)
                } else {
                    node_id
                };
                &&& final(self).roots() == roots_with(old(self).nodes(), old(self).roots(), candidate)
                &&& covered(final(self).nodes(), final(self).roots(), candidate)
                &&& forall|x: NodeId|
                    covered(old(self).nodes(), old(self).roots(), x) ==> covered(final(self).nodes(), final(self).roots(), x)
                &&& forall|k: int|
                    0 <= k < old(self).node_flags().len() ==> #[trigger] final(self).node_flags()[k] == if node_index(
                        old(self).nodes(),
                        node_id,
                    ) is Some && on_path(old(self).nodes(), node_index(old(self).nodes(), node_id)->0, k) {
                        old(self).node_flags()[k].marked(reason)
                    } else {
                        old(self).node_flags()[k]
                    }
            },
    {
        self.dirty.mark(reason);
        if reason == DirtyReason::Paint {
            match self.index_of(node_id) {
                Some(i) => {
                    let mut f = self.flags[i];
                    f.mark(reason);
                    self.flags.set(i, f);
                },
                None => {},
            }
            return;
        }
        let ghost nodes = self.nodes@;
        let ghost flags0 = self.flags@;
        let ghost roots0 = self.roots@;
        let ghost root0 = self.root;
        let ghost dirty1 = self.dirty;
        match self.index_of(node_id) {
            Some(s) => {
                let ghost path = seq![nodes[s as int].id] + ancestors(nodes, s as int);
                let mut cur: usize = s;
                let ghost mut k: int = 0;
                loop
                    invariant_except_break
                        forall|q: int|
                            0 <= q < nodes.len() ==> #[trigger] self.flags@[q] == if path.take(k).contains(nodes[q].id) {
                                flags0[q].marked(reason)
                            } else {
                                flags0[q]
                            },
                    invariant
                        nodes == self.nodes@,
                        tree_wf(nodes),
                        self.flags@.len() == flags0.len(),
                        flags0.len() == nodes.len(),
                        0 <= s < nodes.len(),
                        path == seq![nodes[s as int].id] + ancestors(nodes, s as int),
                        0 <= cur < nodes.len(),
                        0 <= k < path.len(),
                        nodes[cur as int].id == path[k],
                        ancestors(nodes, cur as int) == path.skip(k + 1),
                        self.roots@ == roots0,
                        self.root == root0,
                        self.dirty == dirty1,
                    ensures
                        tree_wf(nodes),
                        nodes == self.nodes@,
                        self.roots@ == roots0,
                        self.root == root0,
                        self.dirty == dirty1,
                        self.flags@.len() == flags0.len(),
                        forall|q: int|
                            0 <= q < nodes.len() ==> #[trigger] self.flags@[q] == if path.contains(nodes[q].id) {
                                flags0[q].marked(reason)
                            } else {
                                flags0[q]
                            },
                    decreases cur,
                {
                    let ghost before = self.flags@;
                    let mut f = self.flags[cur];
                    f.mark(reason);
                    self.flags.set(cur, f);
                    proof {
                        crate::invalidation::lemma_mark_idempotent(flags0[cur as int], reason);
                        assert(path.take(k + 1) =~= path.take(k).push(path[k]));
                        assert forall|q: int| 0 <= q < nodes.len() implies #[trigger] self.flags@[q] == if path.take(k + 1).contains(
                            nodes[q].id,
                        ) {
                            flags0[q].marked(reason)
                        } else {
                            flags0[q]
                        } by {
                            if q != cur {
                                assert(nodes[q].id != nodes[cur as int].id);
                                assert(path.take(k + 1).contains(nodes[q].id) == path.take(k).contains(nodes[q].id));
                            } else {
                                assert(path.take(k + 1)[k] == nodes[q].id);
                            }
                        }
                    }
                    match self.nodes[cur].parent {
                        None => {
                            proof {
                                assert(path.skip(k + 1).len() == 0);
                                assert(path.take(k + 1) =~= path);
                            }
                            break;
                        },
                        Some(p) => {
                            proof {
                                lemma_ancestors_parent(nodes, cur as int);
                                assert(path.skip(k + 1)[0] == path[k + 1]);
                                assert(path.skip(k + 2) =~= path.skip(k + 1).skip(1));
                                assert(ancestors(nodes, cur as int).skip(1) =~= ancestors(nodes, p as int));
                            }
                            cur = p;
                            proof {
                                k = k + 1;
                            }
                        },
                    }
                }
                proof {
                    lemma_node_index(nodes, s as int);
                    assert forall|q: int| 0 <= q < nodes.len() implies path.contains(nodes[q].id) == on_path(
                        nodes,
                        s as int,
                        q,
                    ) by {
                        if path.contains(nodes[q].id) {
                            let w = choose|w: int| 0 <= w < path.len() && path[w] == nodes[q].id;
                            if w == 0 {
                                assert(nodes[q].id == nodes[s as int].id);
                            } else {
                                assert(ancestors(nodes, s as int)[w - 1] == nodes[q].id);
                            }
                        }
                        if on_path(nodes, s as int, q) {
                            if q == s {
                                assert(path[0] == nodes[q].id);
                            } else {
                                let w = choose|w: int|
                                    0 <= w < ancestors(nodes, s as int).len() && ancestors(nodes, s as int)[w] == nodes[q].id;
                                assert(path[w + 1] == nodes[q].id);
                            }
                        }
                    }
                }
            },
            None => {},
        }
        let candidate = if reason == DirtyReason::Structure {
            self.structure_root_for(node_id)
        } else {
            node_id
        };
        self.insert_layout_dirty_root(candidate);
        proof {
            lemma_roots_with(nodes, old(self).roots(), candidate);
        }
    }

    /// The ids of the nodes with pending work, in node order.
    pub fn dirty_node_ids(&self) -> (ids: Vec<NodeId>)
        requires
            self.wf(),
        ensures
            ids@ == dirty_ids(self.nodes(), self.node_flags()),
    {
        let mut ids: Vec<NodeId> = Vec::new();
        let mut i: usize = 0;
        while i < self.nodes.len()
            invariant
                0 <= i <= self.nodes@.len(),
                self.flags@.len() == self.nodes@.len(),
                ids@ == dirty_ids(self.nodes@.take(i as int), self.flags@.take(i as int)),
            decreases self.nodes@.len() - i,
        {
            proof {
                assert(self.nodes@.take(i + 1).drop_last() =~= self.nodes@.take(i as int));
                assert(self.flags@.take(i + 1).drop_last() =~= self.flags@.take(i as int));
            }
            if !self.flags[i].is_clean() {
                ids.push(self.nodes[i].id);
            }
            i = i + 1;
        }
        proof {
            assert(self.nodes@.take(self.nodes@.len() as int) =~= self.nodes@);
            assert(self.flags@.take(self.flags@.len() as int) =~= self.flags@);
        }
        ids
    }

    /// The roots layout must run again from: the recorded ones, or the tree
    /// root when none is recorded but the tree needs layout.
    pub fn layout_dirty_roots(&self) -> (roots: Vec<NodeId>)
        ensures
            roots@ == if self.roots().len() == 0 && self.tree_flags().spec_requires_layout() {
                seq![self.root_id()]
            } else {
                self.roots()
            },
    {
        if self.roots.len() == 0 && self.dirty.requires_layout() {
            let mut roots: Vec<NodeId> = Vec::new();
            roots.push(self.root);
            proof {
                assert(roots@ =~= seq![self.root_id()]);
            }
            roots
        } else {
            crate::retained::copy_node_ids(&self.roots)
        }
    }

    /// The flags of node `node_id` (clean for an unknown node).
    pub fn dirty_flags_for(&self, node_id: NodeId) -> (flags: DirtyFlags)
        requires
            self.wf(),
        ensures
            flags == self.flags_of(node_id),
    {
        match self.index_of(node_id) {
            Some(i) => self.flags[i],
            None => DirtyFlags::clean(),
        }
    }

    /// Forgets all pending work, as after a new scene was built.
    pub fn clear_all(&mut self)
        requires
            old(self).wf(),
        ensures
            final(self).wf(),
            final(self).nodes() == old(self).nodes(),
            final(self).root_id() == old(self).root_id(),
            final(self).roots().len() == 0,
            final(self).tree_flags() == DirtyFlags::spec_clean(),
            final(self).node_flags().len() == old(self).node_flags().len(),
            forall|k: int| 0 <= k < final(self).node_flags().len() ==> #[trigger] final(self).node_flags()[k]
                == DirtyFlags::spec_clean(),
    {
        self.dirty = DirtyFlags::clean();
        self.roots = Vec::new();
        let n = self.flags.len();
        let mut i: usize = 0;
        while i < n
            invariant
                0 <= i <= n,
                n == self.flags@.len(),
                self.flags@.len() == self.nodes@.len(),
                self.nodes@ == old(self).nodes@,
                self.root == old(self).root,
                self.dirty == DirtyFlags::spec_clean(),
                tree_wf(self.nodes@),
                self.roots@.len() == 0,
                forall|k: int| 0 <= k < i ==> #[trigger] self.flags@[k] == DirtyFlags::spec_clean(),
            decreases n - i,
        {
            self.flags.set(i, DirtyFlags::clean());
            i = i + 1;
        }
    }

    /// Forgets node `node_id`'s pending work, as after its content was
    /// painted again.
    pub fn clear_node(&mut self, node_id: NodeId)
        requires
            old(self).wf(),
        ensures
            final(self).wf(),
            final(self).nodes() == old(self).nodes(),
            final(self).root_id() == old(self).root_id(),
            final(self).roots() == old(self).roots(),
            final(self).tree_flags() == old(self).tree_flags(),
            final(self).node_flags() == match node_index(old(self).nodes(), node_id) {
                Some(i) => old(self).node_flags().update(i, DirtyFlags::spec_clean()),
                None => old(self).node_flags(),
            },
    {
        match self.index_of(node_id) {
            Some(i) => {
                self.flags.set(i, DirtyFlags::clean());
            },
            None => {},
        }
    }
}

/// A copy of a list of node ids.
pub fn copy_node_ids(ids: &Vec<NodeId>) -> (out: Vec<NodeId>)
    ensures
        out@ == ids@,
{
    let mut out: Vec<NodeId> = Vec::new();
    let mut i: usize = 0;
    while i < ids.len()
        invariant
            0 <= i <= ids@.len(),
            out@ == ids@.take(i as int),
        decreases ids@.len() - i,
    {
        out.push(ids[i]);
        proof {
            assert(ids@.take(i + 1) =~= ids@.take(i as int).push(ids@[i as int]));
        }
        i = i + 1;
    }
    proof {
        assert(ids@.take(ids@.len() as int) =~= ids@);
    }
    out
}

/// The shape of a compose tree: each node's id, whether it holds children
/// (a container or a stack), and its children in order.
pub struct ShapeNode {
    pub id: NodeId,
    pub container_like: bool,
    pub children: Vec<ShapeNode>,
}

/// The preorder listing of `node`'s subtree placed at position `base`, with
/// `parent` as its parent's position.
pub open spec fn flatten(node: ShapeNode, parent: Option<usize>, base: nat) -> Seq<TreeNode>
    decreases node,
{
    seq![TreeNode { id: node.id, parent, container_like: node.container_like }] + flatten_children(
        node.children@,
        base,
        base + 1,
        node,
    )
}

/// The preorder listings of `children`, one after the other from position
/// `start`, each with `parent` as its parent's position.
pub open spec fn flatten_children(children: Seq<ShapeNode>, parent: nat, start: nat, owner: ShapeNode) -> Seq<
    TreeNode,
>
    decreases owner, children.len(),
{
    if children.len() == 0 {
        Seq::empty()
    } else if decreases_to!(owner => children.last()) {
        let prev = flatten_children(children.drop_last(), parent, start, owner);
        prev + flatten(children.last(), Some(parent as usize), start + prev.len())
    } else {
        Seq::empty()
    }
}


/// Appends the preorder listing of `node`'s subtree to `out`, with `parent`
/// as the position of its parent.
fn list_subtree(node: &ShapeNode, parent: Option<usize>, out: &mut Vec<TreeNode>)
    requires
        parent matches Some(p) ==> p < old(out)@.len(),
    ensures
        final(out)@ == old(out)@ + flatten(*node, parent, old(out)@.len()),
    decreases node,
{
    let base: usize = out.len();
    out.push(TreeNode { id: node.id, parent, container_like: node.container_like });
    let ghost start = out@;
    let mut i: usize = 0;
    while i < node.children.len()
        invariant
            0 <= i <= node.children@.len(),
            base == start.len() - 1,
            out@ == start + flatten_children(node.children@.take(i as int), base as nat, (base + 1) as nat, *node),
        decreases node.children@.len() - i,
    {
        let ghost before = out@;
        proof {
            assert(decreases_to!(*node => node.children));
            assert(decreases_to!(node.children => node.children@));
            assert(decreases_to!(node.children@ => node.children@[i as int]));
            assert(decreases_to!(*node => node.children@[i as int]));
        }
        list_subtree(&node.children[i], Some(base), out);
        proof {
            let taken = node.children@.take(i + 1);
            assert(taken.drop_last() =~= node.children@.take(i as int));
            assert(taken.last() == node.children@[i as int]);
        }
        i = i + 1;
    }
    proof {
        assert(node.children@.take(node.children@.len() as int) =~= node.children@);
    }
}

/// The nodes of the tree under `root` in preorder, each with its parent's
/// position and whether it holds children.
pub fn index_tree(root: &ShapeNode) -> (nodes: Vec<TreeNode>)
    ensures
        nodes@ == flatten(*root, None, 0),
{
    let mut nodes: Vec<TreeNode> = Vec::new();
    list_subtree(root, None, &mut nodes);
    proof {
        assert(nodes@ =~= flatten(*root, None, 0));
    }
    nodes
}

/// In the listing of a subtree placed at `base`, the first node has the
/// given parent and every later node's parent stands before it, at or after
/// `base`.
proof fn lemma_flatten_parents(node: ShapeNode, parent: Option<usize>, base: nat)
    requires
        parent matches Some(p) ==> p < base,
        base + flatten(node, parent, base).len() <= usize::MAX + 1,
    ensures
        flatten(node, parent, base).len() >= 1,
        flatten(node, parent, base)[0].parent == parent,
        forall|k: int|
            0 < k < flatten(node, parent, base).len() ==> (#[trigger] flatten(node, parent, base)[k]).parent
                is Some && base <= flatten(node, parent, base)[k].parent->0 < base + k,
    decreases node,
{
    lemma_children_parents(node.children@, base, base + 1, node);
    let flat = flatten(node, parent, base);
    let rest = flatten_children(node.children@, base, base + 1, node);
    assert forall|k: int| 0 < k < flat.len() implies (#[trigger] flat[k]).parent is Some && base <= flat[k].parent->0
        < base + k by {
        assert(flat[k] == rest[k - 1]);
    }
}

/// In the listings of `children` placed one after the other from `start`,
/// each node's parent is `parent` or a position before it, at or after `start`.
proof fn lemma_children_parents(children: Seq<ShapeNode>, parent: nat, start: nat, owner: ShapeNode)
    requires
        parent < start,
        start + flatten_children(children, parent, start, owner).len() <= usize::MAX + 1,
    ensures
        forall|k: int|
            0 <= k < flatten_children(children, parent, start, owner).len() ==> (#[trigger] flatten_children(
                children,
                parent,
                start,
                owner,
            )[k]).parent is Some && (flatten_children(children, parent, start, owner)[k].parent->0 == parent
                || start <= flatten_children(children, parent, start, owner)[k].parent->0 < start + k),
    decreases owner, children.len(),
{
    if children.len() == 0 {
    } else if decreases_to!(owner => children.last()) {
        let prev = flatten_children(children.drop_last(), parent, start, owner);
        let last = flatten(children.last(), Some(parent as usize), start + prev.len());
        let all = flatten_children(children, parent, start, owner);
        assert(all == prev + last);
        lemma_children_parents(children.drop_last(), parent, start, owner);
        lemma_flatten_parents(children.last(), Some(parent as usize), start + prev.len());
        assert forall|k: int| 0 <= k < all.len() implies (#[trigger] all[k]).parent is Some && (all[k].parent->0
            == parent || start <= all[k].parent->0 < start + k) by {
            if k < prev.len() {
                assert(all[k] == prev[k]);
            } else {
                assert(all[k] == last[k - prev.len()]);
            }
        }
    }
}

/// The preorder listing of a tree lists each parent before its children.
pub proof fn lemma_index_parents_first(root: ShapeNode)
    requires
        flatten(root, None, 0).len() <= usize::MAX,
    ensures
        forall|i: int|
            0 <= i < flatten(root, None, 0).len() && (#[trigger] flatten(root, None, 0)[i]).parent is Some
                ==> flatten(root, None, 0)[i].parent->0 < i,
{
    lemma_flatten_parents(root, None, 0);
}

/// Whether no two of `nodes` share an id.
pub open spec fn ids_distinct(nodes: Seq<TreeNode>) -> bool {
    forall|i: int, j: int|
        0 <= i < nodes.len() && 0 <= j < nodes.len() && i != j ==> (#[trigger] nodes[i]).id != (
        #[trigger] nodes[j]).id
}

/// Whether no two of `nodes` share an id.
fn has_distinct_ids(nodes: &Vec<TreeNode>) -> (r: bool)
    ensures
        r == ids_distinct(nodes@),
{
    let mut i: usize = 0;
    while i < nodes.len()
        invariant
            0 <= i <= nodes@.len(),
            forall|a: int, b: int|
                0 <= a < i && 0 <= b < nodes@.len() && a != b ==> (#[trigger] nodes@[a]).id != (
                #[trigger] nodes@[b]).id,
        decreases nodes@.len() - i,
    {
        let mut j: usize = 0;
        while j < nodes.len()
            invariant
                0 <= i < nodes@.len(),
                0 <= j <= nodes@.len(),
                forall|a: int, b: int|
                    0 <= a < i && 0 <= b < nodes@.len() && a != b ==> (#[trigger] nodes@[a]).id != (
                    #[trigger] nodes@[b]).id,
                forall|b: int| 0 <= b < j && b != i ==> nodes@[i as int].id != (#[trigger] nodes@[b]).id,
            decreases nodes@.len() - j,
        {
            if j != i && nodes[i].id.0 == nodes[j].id.0 {
                proof {
                    assert(nodes@[i as int].id == nodes@[j as int].id);
                }
                return false;
            }
            j = j + 1;
        }
        i = i + 1;
    }
    true
}

impl RetainedDirtyState {
    /// The state of the tree under `root`, freshly indexed with nothing dirty;
    /// `None` where two of its nodes share an id, since nodes are found by id.
    pub fn from_tree(root: &ShapeNode) -> (r: Option<Self>)
        ensures
            r is Some <==> ids_distinct(flatten(*root, None, 0)),
            r matches Some(state) ==> {
                &&& state.wf()
                &&& state.root_id() == root.id
                &&& state.nodes() == flatten(*root, None, 0)
                &&& state.roots().len() == 0
                &&& state.tree_flags() == DirtyFlags::spec_clean()
                &&& forall|i: int|
                    0 <= i < state.nodes().len() ==> #[trigger] state.node_flags()[i]
                        == DirtyFlags::spec_clean()
            },
    {
        let nodes = index_tree(root);
        if !has_distinct_ids(&nodes) {
            return None;
        }
        let count: usize = nodes.len();
        proof {
            assert(nodes@.len() == count);
            lemma_index_parents_first(*root);
        }
        Some(RetainedDirtyState::new(root.id, nodes))
    }
}

} // verus!
