//! The container tree: an arena of nodes addressed by stable ids, with
//! id-based parent back-references (so upward traversal needs no owning
//! cycles).
//!
//! Proportional tiling sizes are kept as fixed-point fractions of
//! [`FULL_SIZE`]: a container whose `tiling_size` is `FULL_SIZE` occupies all
//! of its parent's space along the split axis.  The well-formedness
//! predicates below state the tree's invariants: parent references and child
//! lists agree, child lists hold no duplicates, every container's focus
//! order is a permutation of its children, and the children of every split
//! or workspace share the space exactly.

use vstd::prelude::*;

verus! {

broadcast use vstd::seq_lib::group_to_multiset_ensures;

/// A tiling size of `FULL_SIZE` stands for the whole of the parent's space.
pub const FULL_SIZE: u32 = 10000;

/// The variant of a container.
#[derive(Clone, Copy, Debug, PartialEq, Eq, Structural)]
pub enum Kind {
    /// The single top-level container bounding the tree.
    Root,
    /// A structural child of the root; holds the tiling containers.
    Workspace,
    /// A container that arranges its children along one axis.
    Split,
    /// A leaf standing for one managed on-screen window.
    Window,
}

/// The axis along which a split arranges its children.
#[derive(Clone, Copy, Debug, PartialEq, Eq, Structural)]
pub enum Orientation {
    Horizontal,
    Vertical,
}

/// One container in the arena.
pub struct Node {
    pub kind: Kind,
    /// Meaningful for splits; carried (but unused) by the other variants.
    pub orientation: Orientation,
    /// Back-reference to the parent, or `None` for the root and for
    /// containers that have been detached from the tree.
    pub parent: Option<usize>,
    /// Ids of the children, in layout order.
    pub children: Vec<usize>,
    /// Ids of the children, most recently focused first.
    pub focus_order: Vec<usize>,
    /// Fixed-point fraction of the parent's space this container occupies.
    pub tiling_size: u32,
}

/// The container tree.  Ids are indices into the arena; nodes are created
/// after their parents, so every child id is larger than its parent's id,
/// which rules out cycles.
pub struct Tree {
    pub nodes: Vec<Node>,
}

/// Whether a container of this kind takes part in proportional space
/// sharing.
pub open spec fn is_tiling_kind(k: Kind) -> bool {
    k == Kind::Window || k == Kind::Split
}

/// Which kinds of container may sit directly under a container of kind
/// `parent`.
pub open spec fn can_contain(parent: Kind, child: Kind) -> bool {
    match parent {
        Kind::Root => child == Kind::Workspace,
        Kind::Workspace => is_tiling_kind(child),
        Kind::Split => is_tiling_kind(child),
        Kind::Window => false,
    }
}

/// Two nodes hold the same data.
pub open spec fn node_eq(a: Node, b: Node) -> bool {
    &&& a.kind == b.kind
    &&& a.orientation == b.orientation
    &&& a.parent == b.parent
    &&& a.children@ == b.children@
    &&& a.focus_order@ == b.focus_order@
    &&& a.tiling_size == b.tiling_size
}

/// Two arenas hold the same trees.
pub open spec fn same_nodes(a: Seq<Node>, b: Seq<Node>) -> bool {
    a.len() == b.len() && forall|i: int| 0 <= i < a.len() ==> #[trigger] node_eq(a[i], b[i])
}

/// A node's parent reference points below it and is answered by an entry in
/// that parent's child list.
pub open spec fn parent_link_ok(s: Seq<Node>, i: int) -> bool {
    match s[i].parent {
        Some(p) => (p as int) < i && s[p as int].children@.contains(i as usize),
        None => true,
    }
}

/// Every entry of a node's child list is a valid id above it whose parent
/// reference points back, and holds a kind the node may contain.
pub open spec fn children_ok(s: Seq<Node>, i: int) -> bool {
    forall|k: int|
        0 <= k < s[i].children@.len() ==> {
            let c = #[trigger] s[i].children@[k];
            &&& (c as int) < s.len()
            &&& i < (c as int)
            &&& s[c as int].parent == Some(i as usize)
            &&& can_contain(s[i].kind, s[c as int].kind)
        }
}

/// No id occurs twice in a node's child list.
pub open spec fn children_distinct(s: Seq<Node>, i: int) -> bool {
    forall|k1: int, k2: int|
        0 <= k1 < k2 < s[i].children@.len() ==> s[i].children@[k1] != s[i].children@[k2]
}

/// The focus order lists exactly the children, possibly in another order.
pub open spec fn focus_matches_children(s: Seq<Node>, i: int) -> bool {
    s[i].focus_order@.to_multiset() == s[i].children@.to_multiset()
}

/// Tiling containers occupy a positive share of their parent's space.
pub open spec fn size_positive(s: Seq<Node>, i: int) -> bool {
    is_tiling_kind(s[i].kind) ==> s[i].tiling_size >= 1
}

/// All structural invariants of one node.
pub open spec fn wf_at(s: Seq<Node>, i: int) -> bool {
    &&& parent_link_ok(s, i)
    &&& children_ok(s, i)
    &&& children_distinct(s, i)
    &&& focus_matches_children(s, i)
    &&& size_positive(s, i)
}

/// The whole arena is structurally well-formed.
pub open spec fn wf_nodes(s: Seq<Node>) -> bool {
    forall|i: int| 0 <= i < s.len() ==> #[trigger] wf_at(s, i)
}

/// The tiling sizes of the listed children, added up.
pub open spec fn child_sum(s: Seq<Node>, cs: Seq<usize>) -> int
    decreases cs.len(),
{
    if cs.len() == 0 {
        0
    } else {
        child_sum(s, cs.drop_last()) + s[cs.last() as int].tiling_size
    }
}

/// The children of a split or workspace share its space exactly (vacuous
/// for containers with no children, such as an empty workspace).
pub open spec fn split_sum_ok(s: Seq<Node>, i: int) -> bool {
    (s[i].kind == Kind::Split || s[i].kind == Kind::Workspace) && s[i].children@.len() > 0
        ==> child_sum(s, s[i].children@) == FULL_SIZE as int
}

/// Size conservation holds at every node.
pub open spec fn sizes_ok(s: Seq<Node>) -> bool {
    forall|i: int| 0 <= i < s.len() ==> #[trigger] split_sum_ok(s, i)
}

/// Size conservation holds at every node but `e` (the transient state in
/// the middle of a detach, before freed space is redistributed).
pub open spec fn sizes_ok_except(s: Seq<Node>, e: int) -> bool {
    forall|i: int| 0 <= i < s.len() && i != e ==> #[trigger] split_sum_ok(s, i)
}

/// A split still attached to the tree but left with fewer than two
/// children; such a split is redundant and must be flattened away.
pub open spec fn degenerate(s: Seq<Node>, i: int) -> bool {
    s[i].kind == Kind::Split && s[i].parent is Some && s[i].children@.len() < 2
}

/// No attached split is redundant.
pub open spec fn tidy(s: Seq<Node>) -> bool {
    forall|i: int| 0 <= i < s.len() ==> !(#[trigger] degenerate(s, i))
}

impl Tree {
    /// Structural well-formedness of the whole tree.
    pub open spec fn wf(self) -> bool {
        wf_nodes(self.nodes@)
    }

    /// Size conservation over the whole tree.
    pub open spec fn sizes_consistent(self) -> bool {
        sizes_ok(self.nodes@)
    }
}

/// Sums agree between two arenas whose listed children have the same sizes.
pub proof fn lemma_sum_sizes_agree(s1: Seq<Node>, s2: Seq<Node>, cs: Seq<usize>)
    requires
        forall|k: int|
            0 <= k < cs.len() ==> s1[#[trigger] cs[k] as int].tiling_size == s2[cs[k] as int].tiling_size,
    ensures
        child_sum(s1, cs) == child_sum(s2, cs),
    decreases cs.len(),
{
    if cs.len() > 0 {
        assert(forall|k: int|
            0 <= k < cs.drop_last().len() ==> cs.drop_last()[k] == cs[k]);
        lemma_sum_sizes_agree(s1, s2, cs.drop_last());
    }
}

/// A sum of unsigned sizes is never negative.
pub proof fn lemma_sum_nonneg(s: Seq<Node>, cs: Seq<usize>)
    ensures
        child_sum(s, cs) >= 0,
    decreases cs.len(),
{
    if cs.len() > 0 {
        lemma_sum_nonneg(s, cs.drop_last());
    }
}

/// Removing the entry at position `j` subtracts that child's size.
pub proof fn lemma_sum_remove(s: Seq<Node>, cs: Seq<usize>, j: int)
    requires
        0 <= j < cs.len(),
    ensures
        child_sum(s, cs.remove(j)) == child_sum(s, cs) - s[cs[j] as int].tiling_size,
    decreases cs.len(),
{
    if j == cs.len() - 1 {
        assert(cs.remove(j) =~= cs.drop_last());
    } else {
        assert(cs.remove(j).drop_last() =~= cs.drop_last().remove(j));
        assert(cs.remove(j).last() == cs.last());
        lemma_sum_remove(s, cs.drop_last(), j);
    }
}

/// Replacing the entry at position `j` with `x` swaps their sizes in the sum.
pub proof fn lemma_sum_update_entry(s: Seq<Node>, cs: Seq<usize>, j: int, x: usize)
    requires
        0 <= j < cs.len(),
    ensures
        child_sum(s, cs.update(j, x)) == child_sum(s, cs) - s[cs[j] as int].tiling_size
            + s[x as int].tiling_size,
    decreases cs.len(),
{
    if j == cs.len() - 1 {
        assert(cs.update(j, x).drop_last() =~= cs.drop_last());
        assert(cs.update(j, x).last() == x);
    } else {
        assert(cs.update(j, x).drop_last() =~= cs.drop_last().update(j, x));
        assert(cs.update(j, x).last() == cs.last());
        lemma_sum_update_entry(s, cs.drop_last(), j, x);
    }
}

/// When only the child listed at position `j` changes size between two
/// arenas, their sum shifts by exactly that change.
pub proof fn lemma_sum_one_changed(sa: Seq<Node>, sb: Seq<Node>, cs: Seq<usize>, j: int)
    requires
        0 <= j < cs.len(),
        forall|k: int|
            0 <= k < cs.len() && k != j ==> sa[#[trigger] cs[k] as int].tiling_size
                == sb[cs[k] as int].tiling_size,
    ensures
        child_sum(sb, cs) == child_sum(sa, cs) - sa[cs[j] as int].tiling_size
            + sb[cs[j] as int].tiling_size,
    decreases cs.len(),
{
    assert(forall|k: int| 0 <= k < cs.drop_last().len() ==> cs.drop_last()[k] == cs[k]);
    if j == cs.len() - 1 {
        lemma_sum_sizes_agree(sa, sb, cs.drop_last());
    } else {
        lemma_sum_one_changed(sa, sb, cs.drop_last(), j);
    }
}

/// When each listed child's size grows by `inc`, and the first `rem` of
/// them by one more, the sum grows by `len * inc + rem`.
pub proof fn lemma_sum_shifted(s0: Seq<Node>, s1: Seq<Node>, cs: Seq<usize>, inc: int, rem: int)
    requires
        0 <= rem <= cs.len(),
        forall|m: int|
            0 <= m < cs.len() ==> s1[#[trigger] cs[m] as int].tiling_size == s0[cs[m] as int].tiling_size + inc + (if m < rem {
                1int
            } else {
                0int
            }),
    ensures
        child_sum(s1, cs) == child_sum(s0, cs) + cs.len() * inc + rem,
    decreases cs.len(),
{
    if cs.len() > 0 {
        let l = cs.len() - 1;
        assert(forall|m: int| 0 <= m < l ==> cs.drop_last()[m] == cs[m]);
        if rem == cs.len() {
            lemma_sum_shifted(s0, s1, cs.drop_last(), inc, rem - 1);
        } else {
            lemma_sum_shifted(s0, s1, cs.drop_last(), inc, rem);
        }
        assert(cs.len() * inc == (cs.len() - 1) * inc + inc) by (nonlinear_arith);
    }
}

/// Each listed child's size is at most the whole sum.
pub proof fn lemma_member_le_sum(s: Seq<Node>, cs: Seq<usize>, j: int)
    requires
        0 <= j < cs.len(),
    ensures
        s[cs[j] as int].tiling_size <= child_sum(s, cs),
    decreases cs.len(),
{
    if j == cs.len() - 1 {
        lemma_sum_nonneg(s, cs.drop_last());
    } else {
        lemma_member_le_sum(s, cs.drop_last(), j);
    }
}

/// With every listed child's size positive, the sum bounds their number.
pub proof fn lemma_sum_lower_bound(s: Seq<Node>, cs: Seq<usize>)
    requires
        forall|k: int| 0 <= k < cs.len() ==> s[#[trigger] cs[k] as int].tiling_size >= 1,
    ensures
        child_sum(s, cs) >= cs.len(),
    decreases cs.len(),
{
    if cs.len() > 0 {
        assert(forall|k: int|
            0 <= k < cs.drop_last().len() ==> cs.drop_last()[k] == cs[k]);
        lemma_sum_lower_bound(s, cs.drop_last());
    }
}

/// Law: in a well-formed, size-consistent tree with no redundant splits,
/// every attached split container has at least two children and its
/// children's tiling sizes add up to exactly the whole of its space.
pub proof fn lemma_attached_split_consistent(t: Tree, i: int)
    requires
        t.wf(),
        t.sizes_consistent(),
        tidy(t.nodes@),
        0 <= i < t.nodes@.len(),
        t.nodes@[i].kind == Kind::Split,
        t.nodes@[i].parent is Some,
    ensures
        t.nodes@[i].children@.len() >= 2,
        child_sum(t.nodes@, t.nodes@[i].children@) == FULL_SIZE as int,
{
    assert(!degenerate(t.nodes@, i));
    assert(split_sum_ok(t.nodes@, i));
}

/// Law: in a well-formed tree, every container's focus order holds exactly
/// the same ids as its child list, as multisets.
pub proof fn lemma_focus_order_matches_children(t: Tree, i: int)
    requires
        t.wf(),
        0 <= i < t.nodes@.len(),
    ensures
        t.nodes@[i].focus_order@.to_multiset() == t.nodes@[i].children@.to_multiset(),
{
    assert(wf_at(t.nodes@, i));
}

/// An arena holds the same trees as itself.
pub proof fn lemma_same_nodes_refl(s: Seq<Node>)
    ensures
        same_nodes(s, s),
{
    assert forall|i: int| 0 <= i < s.len() implies #[trigger] node_eq(s[i], s[i]) by {}
}

/// Copy a list of ids.
fn clone_ids(v: &Vec<usize>) -> (r: Vec<usize>)
    ensures
        r@ == v@,
{
    let mut r: Vec<usize> = Vec::new();
    let mut k: usize = 0;
    while k < v.len()
        invariant
            k <= v@.len(),
            r@ == v@.subrange(0, k as int),
        decreases v@.len() - k,
    {
        r.push(v[k]);
        proof {
            assert(r@ =~= v@.subrange(0, k + 1));
        }
        k = k + 1;
    }
    proof {
        assert(r@ =~= v@);
    }
    r
}

impl Clone for Node {
    fn clone(&self) -> (r: Node)
        ensures
            node_eq(r, *self),
    {
        Node {
            kind: self.kind,
            orientation: self.orientation,
            parent: self.parent,
            children: clone_ids(&self.children),
            focus_order: clone_ids(&self.focus_order),
            tiling_size: self.tiling_size,
        }
    }
}

impl Tree {
    /// A fresh tree holding only the root container.
    pub fn new() -> (t: Tree)
        ensures
            t.wf(),
            t.sizes_consistent(),
            tidy(t.nodes@),
            t.nodes@.len() == 1,
            t.nodes@[0].kind == Kind::Root,
            t.nodes@[0].parent is None,
            t.nodes@[0].children@.len() == 0,
            t.nodes@[0].focus_order@.len() == 0,
    {
        let root = Node {
            kind: Kind::Root,
            orientation: Orientation::Horizontal,
            parent: None,
            children: Vec::new(),
            focus_order: Vec::new(),
            tiling_size: FULL_SIZE,
        };
        let mut nodes: Vec<Node> = Vec::new();
        nodes.push(root);
        let t = Tree { nodes };
        proof {
            assert(wf_at(t.nodes@, 0));
            assert(split_sum_ok(t.nodes@, 0));
        }
        t
    }

    /// Create a container of the given kind under `parent` and return its
    /// id.  The new container is appended to the parent's child list and
    /// focus order; ids grow upward from parents to children, which keeps
    /// the arena acyclic.  The caller chooses tiling sizes so that, once a
    /// level of the layout is fully built, the siblings' sizes add up to
    /// [`FULL_SIZE`].
    pub fn add_child(
        &mut self,
        parent: usize,
        kind: Kind,
        orientation: Orientation,
        tiling_size: u32,
    ) -> (id: usize)
        requires
            old(self).wf(),
            (parent as int) < old(self).nodes@.len(),
            can_contain(old(self).nodes@[parent as int].kind, kind),
            is_tiling_kind(kind) ==> tiling_size >= 1,
            old(self).nodes@.len() < usize::MAX,
        ensures
            final(self).wf(),
            id == old(self).nodes@.len(),
            final(self).nodes@.len() == old(self).nodes@.len() + 1,
            final(self).nodes@[id as int].kind == kind,
            final(self).nodes@[id as int].orientation == orientation,
            final(self).nodes@[id as int].parent == Some(parent),
            final(self).nodes@[id as int].children@.len() == 0,
            final(self).nodes@[id as int].focus_order@.len() == 0,
            final(self).nodes@[id as int].tiling_size == tiling_size,
            final(self).nodes@[parent as int].children@ == old(self).nodes@[parent as int].children@.push(id),
            final(self).nodes@[parent as int].focus_order@ == old(self).nodes@[parent as int].focus_order@.push(id),
            final(self).nodes@[parent as int].kind == old(self).nodes@[parent as int].kind,
            final(self).nodes@[parent as int].parent == old(self).nodes@[parent as int].parent,
            final(self).nodes@[parent as int].tiling_size == old(self).nodes@[parent as int].tiling_size,
            forall|i: int|
                0 <= i < old(self).nodes@.len() && i != parent as int ==> #[trigger] node_eq(
                    final(self).nodes@[i],
                    old(self).nodes@[i],
                ),
            child_sum(final(self).nodes@, final(self).nodes@[parent as int].children@) == child_sum(
                old(self).nodes@,
                old(self).nodes@[parent as int].children@,
            ) + tiling_size,
    {
        let ghost s0 = self.nodes@;
        let id = self.nodes.len();
        let node = Node {
            kind,
            orientation,
            parent: Some(parent),
            children: Vec::new(),
            focus_order: Vec::new(),
            tiling_size,
        };
        self.nodes.push(node);
        let mut pnode = self.nodes[parent].clone();
        pnode.children.push(id);
        pnode.focus_order.push(id);
        self.nodes.set(parent, pnode);
        proof {
            let s2 = self.nodes@;
            assert(wf_at(s0, parent as int));
            // every old child of the parent keeps its slot
            assert(forall|k: int|
                0 <= k < s0[parent as int].children@.len() ==> s2[parent as int].children@[k]
                    == s0[parent as int].children@[k]);
            assert(s2[parent as int].children@[s0[parent as int].children@.len() as int]
                == id);
            // well-formedness of every node in the grown arena
            assert forall|i: int| 0 <= i < s2.len() implies #[trigger] wf_at(s2, i) by {
                if i == id as int {
                    assert(s2[i].children@ =~= Seq::<usize>::empty());
                    assert(s2[i].focus_order@ =~= Seq::<usize>::empty());
                    assert(s2[parent as int].children@.contains(id));
                    assert(wf_at(s2, i));
                } else {
                    assert(wf_at(s0, i));
                    if i == parent as int {
                        match s2[i].parent {
                            Some(q) => {
                                let qi = q as int;
                                assert(parent_link_ok(s0, i));
                                assert(node_eq(s2[qi], s0[qi]));
                                assert(s2[qi].children@.contains(parent));
                            },
                            None => {},
                        }
                        assert forall|k: int| 0 <= k < s2[i].children@.len() implies {
                            let c = #[trigger] s2[i].children@[k];
                            &&& (c as int) < s2.len()
                            &&& i < (c as int)
                            &&& s2[c as int].parent == Some(i as usize)
                            &&& can_contain(s2[i].kind, s2[c as int].kind)
                        } by {
                            if k == s0[parent as int].children@.len() {
                                assert(s2[i].children@[k] == id);
                            } else {
                                assert(children_ok(s0, i));
                                let c = s0[i].children@[k];
                                assert(s2[i].children@[k] == c);
                                assert((c as int) < s0.len() && i < (c as int)
                                    && s0[c as int].parent == Some(parent));
                                if (c as int) != parent as int {
                                    assert(node_eq(s2[c as int], s0[c as int]));
                                }
                            }
                        }
                        assert forall|k1: int, k2: int|
                            0 <= k1 < k2 < s2[i].children@.len() implies s2[i].children@[k1]
                                != s2[i].children@[k2] by {
                            assert(children_ok(s0, i));
                            if k2 == s0[i].children@.len() {
                                let c = s0[i].children@[k1];
                                assert(s2[i].children@[k1] == c);
                                assert((c as int) < s0.len());
                            } else {
                                assert(s0[i].children@[k1] != s0[i].children@[k2]);
                            }
                        }
                        assert(s2[i].children@.to_multiset()
                            == s0[i].children@.to_multiset().insert(id));
                        assert(s2[i].focus_order@.to_multiset()
                            == s0[i].focus_order@.to_multiset().insert(id));
                        assert(focus_matches_children(s2, i));
                        assert(wf_at(s2, i));
                    } else {
                        assert(node_eq(s2[i], s0[i]));
                        match s2[i].parent {
                            Some(p) => {
                                let pi = p as int;
                                assert(parent_link_ok(s0, i));
                                if pi == parent as int {
                                    let k = choose|k: int|
                                        0 <= k < s0[pi].children@.len() && s0[pi].children@[k]
                                            == i as usize;
                                    assert(s2[pi].children@[k] == i as usize);
                                    assert(s2[pi].children@.contains(i as usize));
                                } else {
                                    assert(node_eq(s2[pi], s0[pi]));
                                    assert(s2[pi].children@.contains(i as usize));
                                }
                            },
                            None => {},
                        }
                        assert forall|k: int| 0 <= k < s2[i].children@.len() implies {
                            let c = #[trigger] s2[i].children@[k];
                            &&& (c as int) < s2.len()
                            &&& i < (c as int)
                            &&& s2[c as int].parent == Some(i as usize)
                            &&& can_contain(s2[i].kind, s2[c as int].kind)
                        } by {
                            assert(children_ok(s0, i));
                            let c = s0[i].children@[k];
                            assert(s2[i].children@[k] == c);
                            assert((c as int) < s0.len() && i < (c as int) && s0[c as int].parent
                                == Some(i as usize));
                            if (c as int) == parent as int {
                                assert(s2[parent as int].parent == s0[parent as int].parent);
                            } else {
                                assert(node_eq(s2[c as int], s0[c as int]));
                            }
                        }
                        assert(wf_at(s2, i));
                    }
                }
            }
            // the new child's share joins the parent's sum
            assert(s2[parent as int].children@.drop_last() =~= s0[parent as int].children@);
            assert(s2[parent as int].children@.last() == id);
            assert forall|k: int|
                0 <= k < s0[parent as int].children@.len() implies s2[#[trigger] s0[parent as int].children@[k] as int].tiling_size
                    == s0[s0[parent as int].children@[k] as int].tiling_size by {
                assert(children_ok(s0, parent as int));
                let c = s0[parent as int].children@[k];
                if (c as int) != parent as int {
                    assert(node_eq(s2[c as int], s0[c as int]));
                }
            }
            lemma_sum_sizes_agree(s2, s0, s0[parent as int].children@);
        }
        id
    }

    /// How many containers the arena holds (detached ones included).
    pub fn node_count(&self) -> (n: usize)
        ensures
            n == self.nodes@.len(),
    {
        self.nodes.len()
    }

    /// The variant of container `i`.
    pub fn kind_of(&self, i: usize) -> (k: Kind)
        requires
            i < self.nodes@.len(),
        ensures
            k == self.nodes@[i as int].kind,
    {
        self.nodes[i].kind
    }

    /// The split axis carried by container `i`.
    pub fn orientation_of(&self, i: usize) -> (o: Orientation)
        requires
            i < self.nodes@.len(),
        ensures
            o == self.nodes@[i as int].orientation,
    {
        self.nodes[i].orientation
    }

    /// The parent of container `i`, or `None` for the root and for detached
    /// containers.
    pub fn parent_of(&self, i: usize) -> (p: Option<usize>)
        requires
            i < self.nodes@.len(),
        ensures
            p == self.nodes@[i as int].parent,
    {
        self.nodes[i].parent
    }

    /// How many children container `i` has.
    pub fn child_count(&self, i: usize) -> (n: usize)
        requires
            i < self.nodes@.len(),
        ensures
            n == self.nodes@[i as int].children@.len(),
    {
        self.nodes[i].children.len()
    }

    /// The child of container `i` at layout position `k`.
    pub fn child_at(&self, i: usize, k: usize) -> (c: usize)
        requires
            i < self.nodes@.len(),
            k < self.nodes@[i as int].children@.len(),
        ensures
            c == self.nodes@[i as int].children@[k as int],
    {
        self.nodes[i].children[k]
    }

    /// How many entries container `i`'s focus order has.
    pub fn focus_count(&self, i: usize) -> (n: usize)
        requires
            i < self.nodes@.len(),
        ensures
            n == self.nodes@[i as int].focus_order@.len(),
    {
        self.nodes[i].focus_order.len()
    }

    /// The entry of container `i`'s focus order at position `k`.
    pub fn focus_at(&self, i: usize, k: usize) -> (c: usize)
        requires
            i < self.nodes@.len(),
            k < self.nodes@[i as int].focus_order@.len(),
        ensures
            c == self.nodes@[i as int].focus_order@[k as int],
    {
        self.nodes[i].focus_order[k]
    }

    /// A copy of container `i`'s child list, in layout order.
    pub fn children_of(&self, i: usize) -> (v: Vec<usize>)
        requires
            i < self.nodes@.len(),
        ensures
            v@ == self.nodes@[i as int].children@,
    {
        clone_ids(&self.nodes[i].children)
    }

    /// A copy of container `i`'s focus order, most recently focused first.
    pub fn focus_order_of(&self, i: usize) -> (v: Vec<usize>)
        requires
            i < self.nodes@.len(),
        ensures
            v@ == self.nodes@[i as int].focus_order@,
    {
        clone_ids(&self.nodes[i].focus_order)
    }

    /// The fixed-point share of its parent's space container `i` occupies.
    pub fn tiling_size_of(&self, i: usize) -> (z: u32)
        requires
            i < self.nodes@.len(),
        ensures
            z == self.nodes@[i as int].tiling_size,
    {
        self.nodes[i].tiling_size
    }
}

} // verus!
