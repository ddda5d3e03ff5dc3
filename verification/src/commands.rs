//! Mutation commands that keep the container tree consistent: flattening
//! redundant single-child splits, redistributing freed tiling space, and
//! detaching containers.

use vstd::prelude::*;

verus! {

broadcast use vstd::seq_lib::group_to_multiset_ensures;

use crate::tree::Kind;
use crate::tree::Node;
use crate::tree::Tree;
use crate::tree::FULL_SIZE;
use crate::tree::can_contain;
use crate::tree::child_sum;
use crate::tree::children_distinct;
use crate::tree::children_ok;
use crate::tree::degenerate;
use crate::tree::focus_matches_children;
use crate::tree::is_tiling_kind;
use crate::tree::lemma_member_le_sum;
use crate::tree::lemma_same_nodes_refl;
use crate::tree::lemma_sum_lower_bound;
use crate::tree::lemma_sum_one_changed;
use crate::tree::lemma_sum_remove;
use crate::tree::lemma_sum_shifted;
use crate::tree::lemma_sum_sizes_agree;
use crate::tree::lemma_sum_update_entry;
use crate::tree::node_eq;
use crate::tree::parent_link_ok;
use crate::tree::same_nodes;
use crate::tree::size_positive;
use crate::tree::sizes_ok;
use crate::tree::sizes_ok_except;
use crate::tree::split_sum_ok;
use crate::tree::tidy;
use crate::tree::wf_at;
use crate::tree::wf_nodes;

/// Error raised when an operation needs an ancestor that does not exist,
/// such as detaching the root.  It indicates the caller handed the engine a
/// container the tree cannot part with, not a recoverable condition.
#[derive(Clone, Copy, Debug, PartialEq, Eq, Structural)]
pub enum TreeError {
    NoParent,
}

/// A split holding exactly one child; flattening applies to these.
pub open spec fn single_child_split(s: Seq<Node>, i: int) -> bool {
    s[i].kind == Kind::Split && s[i].children@.len() == 1
}

/// Kinds and orientations are never changed by the mutation commands.
pub open spec fn kinds_unchanged(s0: Seq<Node>, s1: Seq<Node>) -> bool {
    &&& s1.len() == s0.len()
    &&& forall|i: int|
        0 <= i < s0.len() ==> (#[trigger] s1[i]).kind == s0[i].kind && s1[i].orientation
            == s0[i].orientation
}

/// A container already detached from the tree is never reattached.
pub open spec fn no_new_attachments(s0: Seq<Node>, s1: Seq<Node>) -> bool {
    forall|i: int|
        0 <= i < s0.len() && (#[trigger] s0[i]).parent is None ==> s1[i].parent is None
}

/// A container already stripped of children and focus entries stays empty.
pub open spec fn no_new_children(s0: Seq<Node>, s1: Seq<Node>) -> bool {
    forall|i: int|
        0 <= i < s0.len() && (#[trigger] s0[i]).children@.len() == 0 && s0[i].focus_order@.len()
            == 0 ==> s1[i].children@.len() == 0 && s1[i].focus_order@.len() == 0
}

/// No attached split becomes redundant that was not already so.
pub open spec fn fewer_degenerates(s0: Seq<Node>, s1: Seq<Node>) -> bool {
    forall|i: int| 0 <= i < s1.len() && #[trigger] degenerate(s1, i) ==> degenerate(s0, i)
}

/// What flattening a single-child split `sp` does: the split is detached
/// and emptied, its sole child takes its place (and its share of space) in
/// the grandparent's child list and focus order, and every other container
/// is untouched.
pub open spec fn flatten_effect(s0: Seq<Node>, s1: Seq<Node>, sp: int) -> bool {
    let g = s0[sp].parent.unwrap() as int;
    let c = s0[sp].children@[0] as int;
    &&& s1.len() == s0.len()
    &&& s1[sp].parent is None
    &&& s1[sp].children@.len() == 0
    &&& s1[sp].focus_order@.len() == 0
    &&& s1[sp].kind == s0[sp].kind
    &&& s1[sp].tiling_size == s0[sp].tiling_size
    &&& s1[c].parent == s0[sp].parent
    &&& s1[c].tiling_size == s0[sp].tiling_size
    &&& s1[c].kind == s0[c].kind
    &&& s1[c].orientation == s0[c].orientation
    &&& s1[c].children@ == s0[c].children@
    &&& s1[c].focus_order@ == s0[c].focus_order@
    &&& s1[g].children@.len() == s0[g].children@.len()
    &&& s1[g].focus_order@.len() == s0[g].focus_order@.len()
    &&& forall|k: int|
        0 <= k < s0[g].children@.len() ==> (#[trigger] s1[g].children@[k]) == (
        if s0[g].children@[k] == sp as usize {
            c as usize
        } else {
            s0[g].children@[k]
        })
    &&& forall|k: int|
        0 <= k < s0[g].focus_order@.len() ==> (#[trigger] s1[g].focus_order@[k]) == (
        if s0[g].focus_order@[k] == sp as usize {
            c as usize
        } else {
            s0[g].focus_order@[k]
        })
    &&& s1[g].kind == s0[g].kind
    &&& s1[g].orientation == s0[g].orientation
    &&& s1[g].parent == s0[g].parent
    &&& s1[g].tiling_size == s0[g].tiling_size
    &&& forall|i: int|
        0 <= i < s0.len() && i != sp && i != c && i != g ==> #[trigger] node_eq(s1[i], s0[i])
}

/// First position of `x` in a list of ids, if present.
fn index_of(v: &Vec<usize>, x: usize) -> (r: Option<usize>)
    ensures
        match r {
            Some(j) => (j as int) < v@.len() && v@[j as int] == x,
            None => !v@.contains(x),
        },
{
    let mut k: usize = 0;
    while k < v.len()
        invariant
            k <= v@.len(),
            forall|m: int| 0 <= m < k ==> v@[m] != x,
        decreases v@.len() - k,
    {
        if v[k] == x {
            return Some(k);
        }
        k = k + 1;
    }
    None
}

/// A well-formed container's focus order repeats no id, because its child
/// list repeats none and the two agree as multisets.
proof fn lemma_focus_no_duplicates(s: Seq<Node>, i: int)
    requires
        0 <= i < s.len(),
        wf_at(s, i),
    ensures
        s[i].focus_order@.no_duplicates(),
        forall|x: usize| s[i].children@.contains(x) <==> s[i].focus_order@.contains(x),
{
    assert(s[i].children@.no_duplicates());
    s[i].children@.lemma_multiset_has_no_duplicates();
    s[i].focus_order@.lemma_multiset_has_no_duplicates_conv();
    assert forall|x: usize|
        s[i].children@.contains(x) <==> s[i].focus_order@.contains(x) by {
        assert(s[i].children@.contains(x) <==> s[i].children@.to_multiset().count(x) > 0);
        assert(s[i].focus_order@.contains(x) <==> s[i].focus_order@.to_multiset().count(x) > 0);
    }
}

/// The full correctness argument for an applicable flatten, relating the
/// arena before (`s0`) to the arena after (`s3`).
proof fn lemma_flatten_ok(s0: Seq<Node>, s3: Seq<Node>, sp: int, g: int, c: int, j: int, jf: int)
    requires
        wf_nodes(s0),
        sizes_ok(s0),
        s0.len() <= usize::MAX as int,
        0 <= g < sp < c < s0.len(),
        s3.len() == s0.len(),
        s0[sp].kind == Kind::Split,
        s0[sp].children@.len() == 1,
        s0[sp].children@[0] == c as usize,
        s0[sp].parent == Some(g as usize),
        0 <= j < s0[g].children@.len(),
        s0[g].children@[j] == sp as usize,
        0 <= jf < s0[g].focus_order@.len(),
        s0[g].focus_order@[jf] == sp as usize,
        s3[g].children@ == s0[g].children@.update(j, c as usize),
        s3[g].focus_order@ == s0[g].focus_order@.update(jf, c as usize),
        s3[g].kind == s0[g].kind,
        s3[g].orientation == s0[g].orientation,
        s3[g].parent == s0[g].parent,
        s3[g].tiling_size == s0[g].tiling_size,
        s3[c].parent == Some(g as usize),
        s3[c].tiling_size == s0[sp].tiling_size,
        s3[c].kind == s0[c].kind,
        s3[c].orientation == s0[c].orientation,
        s3[c].children@ == s0[c].children@,
        s3[c].focus_order@ == s0[c].focus_order@,
        s3[sp].parent is None,
        s3[sp].children@.len() == 0,
        s3[sp].focus_order@.len() == 0,
        s3[sp].kind == s0[sp].kind,
        s3[sp].orientation == s0[sp].orientation,
        s3[sp].tiling_size == s0[sp].tiling_size,
        forall|i: int|
            0 <= i < s0.len() && i != sp && i != c && i != g ==> #[trigger] node_eq(s3[i], s0[i]),
    ensures
        wf_nodes(s3),
        sizes_ok(s3),
        flatten_effect(s0, s3, sp),
        kinds_unchanged(s0, s3),
        no_new_attachments(s0, s3),
        no_new_children(s0, s3),
        fewer_degenerates(s0, s3),
{
    assert(wf_at(s0, sp));
    assert(wf_at(s0, g));
    assert(wf_at(s0, c));
    // the child is a tiling container, and the grandparent can hold it
    assert(can_contain(s0[g].kind, s0[sp].kind));
    assert(can_contain(s0[sp].kind, s0[c].kind));
    assert(s0[c].parent == Some(sp as usize));
    // only position j in g's child list holds sp
    assert forall|k: int|
        0 <= k < s0[g].children@.len() && k != j implies s0[g].children@[k] != sp as usize by {
        if k < j {
            assert(s0[g].children@[k] != s0[g].children@[j]);
        } else {
            assert(s0[g].children@[j] != s0[g].children@[k]);
        }
    }
    // likewise for the focus order
    lemma_focus_no_duplicates(s0, g);
    assert forall|k: int|
        0 <= k < s0[g].focus_order@.len() && k != jf implies s0[g].focus_order@[k]
            != sp as usize by {
        assert(s0[g].focus_order@[k] != s0[g].focus_order@[jf]);
    }
    // c is not among g's children: its parent is sp, not g
    assert forall|k: int|
        0 <= k < s0[g].children@.len() implies s0[g].children@[k] != c as usize by {
        if s0[g].children@[k] == c as usize {
            assert(s0[c].parent == Some(g as usize));
        }
    }
    // every node keeps its kind
    assert forall|i: int| 0 <= i < s0.len() implies (#[trigger] s3[i]).kind == s0[i].kind
        && s3[i].orientation == s0[i].orientation by {
        if i != sp && i != c && i != g {
            assert(node_eq(s3[i], s0[i]));
        }
    }
    // structural well-formedness of the result
    assert forall|i: int| 0 <= i < s3.len() implies #[trigger] wf_at(s3, i) by {
        assert(wf_at(s0, i));
        if i == sp {
            assert(s3[sp].children@ =~= Seq::<usize>::empty());
            assert(s3[sp].focus_order@ =~= Seq::<usize>::empty());
            assert(wf_at(s3, i));
        } else if i == g {
            // parent link of g itself
            match s3[g].parent {
                Some(q) => {
                    let qi = q as int;
                    assert(parent_link_ok(s0, g));
                    assert(qi < g);
                    assert(node_eq(s3[qi], s0[qi]));
                    assert(s3[qi].children@.contains(g as usize));
                },
                None => {},
            }
            // child entries of g
            assert forall|k: int| 0 <= k < s3[g].children@.len() implies {
                let e = #[trigger] s3[g].children@[k];
                &&& (e as int) < s3.len()
                &&& g < (e as int)
                &&& s3[e as int].parent == Some(g as usize)
                &&& can_contain(s3[g].kind, s3[e as int].kind)
            } by {
                if k == j {
                    assert(s3[g].children@[k] == c as usize);
                    assert(is_tiling_kind(s0[c].kind));
                } else {
                    let e = s0[g].children@[k];
                    assert(s3[g].children@[k] == e);
                    assert((e as int) < s0.len() && g < (e as int) && s0[e as int].parent == Some(
                        g as usize,
                    ));
                    assert(e != sp as usize && e != c as usize);
                    if (e as int) != g {
                        assert(node_eq(s3[e as int], s0[e as int]));
                    }
                }
            }
            // distinctness of g's children
            assert forall|k1: int, k2: int|
                0 <= k1 < k2 < s3[g].children@.len() implies s3[g].children@[k1]
                    != s3[g].children@[k2] by {
                assert(s0[g].children@[k1] != s0[g].children@[k2]);
            }
            // focus order still matches the children
            assert(s3[g].children@.to_multiset() == s0[g].children@.to_multiset().insert(
                c as usize,
            ).remove(sp as usize));
            assert(s3[g].focus_order@.to_multiset() == s0[g].focus_order@.to_multiset().insert(
                c as usize,
            ).remove(sp as usize));
            assert(focus_matches_children(s3, g));
            assert(wf_at(s3, i));
        } else if i == c {
            // parent link: the child now sits at position j under g
            assert(s3[g].children@[j] == c as usize);
            assert(s3[g].children@.contains(c as usize));
            // entries below c are untouched
            assert forall|k: int| 0 <= k < s3[c].children@.len() implies {
                let e = #[trigger] s3[c].children@[k];
                &&& (e as int) < s3.len()
                &&& c < (e as int)
                &&& s3[e as int].parent == Some(c as usize)
                &&& can_contain(s3[c].kind, s3[e as int].kind)
            } by {
                let e = s0[c].children@[k];
                assert(s3[c].children@[k] == e);
                assert((e as int) < s0.len() && c < (e as int) && s0[e as int].parent == Some(
                    c as usize,
                ));
                assert(node_eq(s3[e as int], s0[e as int]));
            }
            assert(size_positive(s0, sp));
            assert(is_tiling_kind(s0[sp].kind));
            assert(wf_at(s3, i));
        } else {
            assert(node_eq(s3[i], s0[i]));
            // parent link of an untouched node
            match s3[i].parent {
                Some(p) => {
                    let pi = p as int;
                    assert(parent_link_ok(s0, i));
                    if pi == g {
                        let k = choose|k: int|
                            0 <= k < s0[g].children@.len() && s0[g].children@[k] == i as usize;
                        assert(s3[g].children@[k] == i as usize);
                        assert(s3[g].children@.contains(i as usize));
                    } else if pi == sp {
                        // sp's only child is c, and i != c
                        assert(s0[sp].children@.contains(i as usize));
                        let k = choose|k: int|
                            0 <= k < s0[sp].children@.len() && s0[sp].children@[k] == i as usize;
                        assert(k == 0);
                        assert(false);
                    } else if pi == c {
                        assert(s3[c].children@.contains(i as usize));
                    } else {
                        assert(node_eq(s3[pi], s0[pi]));
                        assert(s3[pi].children@.contains(i as usize));
                    }
                },
                None => {},
            }
            // child entries of an untouched node
            assert forall|k: int| 0 <= k < s3[i].children@.len() implies {
                let e = #[trigger] s3[i].children@[k];
                &&& (e as int) < s3.len()
                &&& i < (e as int)
                &&& s3[e as int].parent == Some(i as usize)
                &&& can_contain(s3[i].kind, s3[e as int].kind)
            } by {
                assert(children_ok(s0, i));
                let e = s0[i].children@[k];
                assert(s3[i].children@[k] == e);
                assert((e as int) < s0.len() && i < (e as int) && s0[e as int].parent == Some(
                    i as usize,
                ));
                if (e as int) == c {
                    assert(s0[c].parent == Some(sp as usize));
                    assert(false);
                } else if (e as int) == sp {
                    assert(s0[sp].parent == Some(g as usize));
                    assert(false);
                } else if (e as int) == g {
                    assert(s3[g].parent == s0[g].parent);
                } else {
                    assert(node_eq(s3[e as int], s0[e as int]));
                }
            }
            assert(wf_at(s3, i));
        }
    }
    // size conservation of the result
    assert forall|i: int| 0 <= i < s3.len() implies #[trigger] split_sum_ok(s3, i) by {
        assert(split_sum_ok(s0, i));
        assert(wf_at(s0, i));
        if i == g {
            if (s3[g].kind == Kind::Split || s3[g].kind == Kind::Workspace)
                && s3[g].children@.len() > 0 {
                let cs0 = s0[g].children@;
                let cs1 = s3[g].children@;
                lemma_sum_update_entry(s0, cs0, j, c as usize);
                assert(child_sum(s0, cs1) == child_sum(s0, cs0) - s0[sp].tiling_size
                    + s0[c].tiling_size);
                assert forall|k: int|
                    0 <= k < cs1.len() && k != j implies s0[#[trigger] cs1[k] as int].tiling_size
                        == s3[cs1[k] as int].tiling_size by {
                    let e = cs1[k];
                    assert(e == s0[g].children@[k]);
                    assert(e != sp as usize && e != c as usize);
                    if (e as int) != g {
                        assert(node_eq(s3[e as int], s0[e as int]));
                    }
                }
                lemma_sum_one_changed(s0, s3, cs1, j);
                assert(child_sum(s3, cs1) == child_sum(s0, cs1) - s0[c].tiling_size
                    + s0[sp].tiling_size);
                assert(child_sum(s0, cs0) == FULL_SIZE as int);
            }
        } else if i == sp {
            assert(s3[sp].children@.len() == 0);
        } else if i == c {
            if (s3[c].kind == Kind::Split || s3[c].kind == Kind::Workspace)
                && s3[c].children@.len() > 0 {
                let cs = s0[c].children@;
                assert forall|k: int|
                    0 <= k < cs.len() implies s0[#[trigger] cs[k] as int].tiling_size == s3[cs[k] as int].tiling_size by {
                    let e = cs[k];
                    assert(s0[e as int].parent == Some(c as usize));
                    assert((e as int) > c);
                    assert(node_eq(s3[e as int], s0[e as int]));
                }
                lemma_sum_sizes_agree(s0, s3, cs);
            }
        } else {
            assert(node_eq(s3[i], s0[i]));
            if (s3[i].kind == Kind::Split || s3[i].kind == Kind::Workspace)
                && s3[i].children@.len() > 0 {
                let cs = s0[i].children@;
                assert(s3[i].children@ == cs);
                assert forall|k: int|
                    0 <= k < cs.len() implies s0[#[trigger] cs[k] as int].tiling_size == s3[cs[k] as int].tiling_size by {
                    let e = cs[k];
                    assert(children_ok(s0, i));
                    assert(s0[e as int].parent == Some(i as usize));
                    if (e as int) == c {
                        assert(false);
                    } else if (e as int) == sp {
                        assert(false);
                    } else if (e as int) == g {
                    } else {
                        assert(node_eq(s3[e as int], s0[e as int]));
                    }
                }
                lemma_sum_sizes_agree(s0, s3, cs);
            }
        }
    }
    // the remaining frame facts
    assert forall|i: int|
        0 <= i < s0.len() && (#[trigger] s0[i]).parent is None implies s3[i].parent is None by {
        if i != sp && i != c && i != g {
            assert(node_eq(s3[i], s0[i]));
        }
    }
    assert forall|i: int|
        0 <= i < s0.len() && (#[trigger] s0[i]).children@.len() == 0 && s0[i].focus_order@.len()
            == 0 implies s3[i].children@.len() == 0 && s3[i].focus_order@.len() == 0 by {
        if i != sp && i != c && i != g {
            assert(node_eq(s3[i], s0[i]));
        }
    }
    assert forall|i: int| 0 <= i < s3.len() && #[trigger] degenerate(s3, i) implies degenerate(
        s0,
        i,
    ) by {
        if i != sp && i != c && i != g {
            assert(node_eq(s3[i], s0[i]));
        }
    }
}

/// Eliminate a split container that holds exactly one child, splicing that
/// child into the split's own slot under the split's parent.  The child
/// keeps the split's former share of space, so proportions are conserved.
/// A container that is not a split with exactly one child is left untouched
/// (so on a tree with no redundant splits this is a no-op); a single-child
/// split with no parent has no slot to splice into and is refused.
pub fn flatten_split_container(tree: &mut Tree, split: usize) -> (r: Result<(), TreeError>)
    requires
        old(tree).wf(),
        old(tree).sizes_consistent(),
        (split as int) < old(tree).nodes@.len(),
    ensures
        final(tree).wf(),
        final(tree).sizes_consistent(),
        final(tree).nodes@.len() == old(tree).nodes@.len(),
        kinds_unchanged(old(tree).nodes@, final(tree).nodes@),
        no_new_attachments(old(tree).nodes@, final(tree).nodes@),
        no_new_children(old(tree).nodes@, final(tree).nodes@),
        fewer_degenerates(old(tree).nodes@, final(tree).nodes@),
        r is Err ==> r == Err::<(), TreeError>(TreeError::NoParent),
        !single_child_split(old(tree).nodes@, split as int) ==> r is Ok && same_nodes(
            final(tree).nodes@,
            old(tree).nodes@,
        ),
        single_child_split(old(tree).nodes@, split as int) && old(tree).nodes@[split as int].parent
            is None ==> r is Err && same_nodes(final(tree).nodes@, old(tree).nodes@),
        single_child_split(old(tree).nodes@, split as int) && old(tree).nodes@[split as int].parent
            is Some ==> r is Ok && flatten_effect(old(tree).nodes@, final(tree).nodes@, split as int),
        tidy(old(tree).nodes@) ==> same_nodes(final(tree).nodes@, old(tree).nodes@),
{
    let ghost s0 = tree.nodes@;
    let total = tree.node_count();
    proof {
        assert(s0.len() <= usize::MAX as int);
    }
    let is_split = tree.kind_of(split) == Kind::Split;
    if !is_split || tree.child_count(split) != 1 {
        proof {
            lemma_same_nodes_refl(s0);
        }
        return Ok(());
    }
    let gopt = tree.parent_of(split);
    if gopt.is_none() {
        proof {
            lemma_same_nodes_refl(s0);
        }
        return Err(TreeError::NoParent);
    }
    let g = gopt.unwrap();
    let child = tree.child_at(split, 0);
    proof {
        assert(wf_at(s0, split as int));
        assert(wf_at(s0, g as int));
        assert(parent_link_ok(s0, split as int));
        assert((g as int) < split as int);
        assert(s0[g as int].children@.contains(split));
        assert(s0[split as int].children@[0] == child);
        assert((child as int) < s0.len() && (split as int) < child as int);
        assert(degenerate(s0, split as int));
    }
    let mut gnode = tree.nodes[g].clone();
    let jopt = index_of(&gnode.children, split);
    proof {
        assert(gnode.children@ == s0[g as int].children@);
        if jopt is None {
            assert(false);
        }
    }
    let j = jopt.unwrap();
    let jfopt = index_of(&gnode.focus_order, split);
    proof {
        lemma_focus_no_duplicates(s0, g as int);
        assert(s0[g as int].focus_order@.contains(split));
        if jfopt is None {
            assert(false);
        }
    }
    let jf = jfopt.unwrap();
    gnode.children.set(j, child);
    gnode.focus_order.set(jf, child);
    let sz = tree.tiling_size_of(split);
    tree.nodes.set(g, gnode);
    let mut cnode = tree.nodes[child].clone();
    cnode.parent = Some(g);
    cnode.tiling_size = sz;
    tree.nodes.set(child, cnode);
    let mut snode = tree.nodes[split].clone();
    snode.parent = None;
    snode.children = Vec::new();
    snode.focus_order = Vec::new();
    tree.nodes.set(split, snode);
    proof {
        let s3 = tree.nodes@;
        assert forall|i: int|
            0 <= i < s0.len() && i != split as int && i != child as int && i
                != g as int implies #[trigger] node_eq(s3[i], s0[i]) by {}
        lemma_flatten_ok(s0, s3, split as int, g as int, child as int, j as int, jf as int);
    }
    Ok(())
}

/// The equal-redistribution rule: every child of `parent` keeps its slot
/// and gains an equal share of the freed space, the first `freed % n` of
/// them one extra fixed-point unit, so the shares still add up exactly.
pub open spec fn equal_increments(s0: Seq<Node>, s1: Seq<Node>, parent: int, freed: int) -> bool {
    let cs = s0[parent].children@;
    let n = cs.len() as int;
    let inc = freed / n;
    let rem = freed % n;
    &&& s1[parent].children@ == cs
    &&& forall|m: int|
        0 <= m < n ==> (#[trigger] s1[cs[m] as int]).tiling_size == s0[cs[m] as int].tiling_size
            + inc + (if m < rem {
            1int
        } else {
            0int
        })
}

/// A split the cascade must flatten away: attached, with exactly one
/// child, which sits above it in the arena (as every child does in a
/// well-formed tree).
pub open spec fn collapsible(s: Seq<Node>, i: int) -> bool {
    &&& 0 <= i < s.len()
    &&& s[i].kind == Kind::Split
    &&& s[i].parent is Some
    &&& s[i].children@.len() == 1
    &&& i < s[i].children@[0] as int
    &&& (s[i].children@[0] as int) < s.len()
}

/// The container at which a cascade of single-child splits starting at
/// `i` ends: the first one downward that is not itself a collapsible
/// split.
pub open spec fn chain_end(s: Seq<Node>, i: int) -> int
    decreases s.len() - i,
{
    if collapsible(s, i) {
        chain_end(s, s[i].children@[0] as int)
    } else {
        i
    }
}

/// Whether `x` is one of the collapsible splits on the cascade starting
/// at `i` (the end of the cascade is not among them).
pub open spec fn on_chain(s: Seq<Node>, i: int, x: int) -> bool
    decreases s.len() - i,
{
    if collapsible(s, i) {
        i == x || on_chain(s, s[i].children@[0] as int, x)
    } else {
        false
    }
}

/// Basic bounds of a cascade's end.
proof fn lemma_chain_end_bounds(s: Seq<Node>, a: int)
    ensures
        !collapsible(s, a) ==> chain_end(s, a) == a,
        collapsible(s, a) ==> a < chain_end(s, a) < s.len(),
    decreases s.len() - a,
{
    if collapsible(s, a) {
        lemma_chain_end_bounds(s, s[a].children@[0] as int);
    }
}

/// Every container on a cascade is a collapsible split, lies between the
/// cascade's start and its end, and shares the cascade's end.
proof fn lemma_on_chain_facts(s: Seq<Node>, a: int, x: int)
    requires
        on_chain(s, a, x),
    ensures
        a <= x < s.len(),
        collapsible(s, x),
        chain_end(s, a) == chain_end(s, x),
        x < chain_end(s, a),
    decreases s.len() - a,
{
    lemma_chain_end_bounds(s, x);
    if x != a {
        lemma_on_chain_facts(s, s[a].children@[0] as int, x);
    }
}

/// A collapsible sole child of a cascade container is on the cascade too.
proof fn lemma_on_chain_extend(s: Seq<Node>, a: int, x: int)
    requires
        on_chain(s, a, x),
        collapsible(s, s[x].children@[0] as int),
    ensures
        on_chain(s, a, s[x].children@[0] as int),
    decreases s.len() - a,
{
    let c = s[x].children@[0] as int;
    if x == a {
        assert(on_chain(s, c, c));
    } else {
        lemma_on_chain_extend(s, s[a].children@[0] as int, x);
    }
}

/// In a well-formed tree, a cascade container other than the start is the
/// sole child of the one before it, so its parent reference points at or
/// above the start.
proof fn lemma_on_chain_parent(s: Seq<Node>, a: int, x: int)
    requires
        wf_nodes(s),
        on_chain(s, a, x),
        x != a,
    ensures
        s[x].parent is Some,
        a <= s[x].parent.unwrap() as int,
    decreases s.len() - a,
{
    let c = s[a].children@[0] as int;
    if x == c {
        assert(wf_at(s, a));
        assert(children_ok(s, a));
        assert(s[a].children@[0] == c as usize);
    } else {
        lemma_on_chain_parent(s, c, x);
    }
}

/// In a well-formed tree, a cascade's end is still attached (it is the
/// sole child of the last cascade container) and is not collapsible.
proof fn lemma_chain_end_attached(s: Seq<Node>, a: int)
    requires
        wf_nodes(s),
        collapsible(s, a),
    ensures
        s[chain_end(s, a)].parent is Some,
        !collapsible(s, chain_end(s, a)),
    decreases s.len() - a,
{
    let c = s[a].children@[0] as int;
    assert(chain_end(s, a) == chain_end(s, c));
    if collapsible(s, c) {
        lemma_chain_end_attached(s, c);
    } else {
        assert(chain_end(s, c) == c);
        assert(wf_at(s, a));
        assert(children_ok(s, a));
        assert(s[a].children@[0] == c as usize);
        assert(s[c].parent == Some(a as usize));
    }
}

/// Cascades read only kinds, parent references and child lists, so two
/// arenas with the same structure have the same cascades.
proof fn lemma_chain_same_structure(sa: Seq<Node>, sb: Seq<Node>, a: int)
    requires
        sb.len() == sa.len(),
        forall|i: int| 0 <= i < sa.len() ==> #[trigger] same_structure(sb[i], sa[i]),
    ensures
        collapsible(sb, a) == collapsible(sa, a),
        chain_end(sb, a) == chain_end(sa, a),
        forall|x: int| on_chain(sb, a, x) == on_chain(sa, a, x),
    decreases sa.len() - a,
{
    if 0 <= a < sa.len() {
        assert(same_structure(sb[a], sa[a]));
        assert(collapsible(sb, a) == collapsible(sa, a));
        if collapsible(sa, a) {
            let c = sa[a].children@[0] as int;
            lemma_chain_same_structure(sa, sb, c);
            assert(chain_end(sa, a) == chain_end(sa, c));
            assert(chain_end(sb, a) == chain_end(sb, c));
            assert forall|x: int| on_chain(sb, a, x) == on_chain(sa, a, x) by {
                assert(on_chain(sb, c, x) == on_chain(sa, c, x));
                assert(on_chain(sa, a, x) == (a == x || on_chain(sa, c, x)));
                assert(on_chain(sb, a, x) == (a == x || on_chain(sb, c, x)));
            }
        } else {
            assert forall|x: int| on_chain(sb, a, x) == on_chain(sa, a, x) by {
                assert(!on_chain(sa, a, x));
                assert(!on_chain(sb, a, x));
            }
        }
    } else {
        assert forall|x: int| on_chain(sb, a, x) == on_chain(sa, a, x) by {
            assert(!collapsible(sa, a));
            assert(!collapsible(sb, a));
        }
    }
}

/// Two nodes agree on everything but possibly their tiling size.
pub open spec fn same_structure(a: Node, b: Node) -> bool {
    &&& a.kind == b.kind
    &&& a.orientation == b.orientation
    &&& a.parent == b.parent
    &&& a.children@ == b.children@
    &&& a.focus_order@ == b.focus_order@
}

/// Changing only tiling sizes (never below one) keeps an arena
/// structurally well-formed.
proof fn lemma_wf_structure_preserved(s0: Seq<Node>, s1: Seq<Node>)
    requires
        wf_nodes(s0),
        s1.len() == s0.len(),
        forall|i: int| 0 <= i < s0.len() ==> #[trigger] same_structure(s1[i], s0[i]),
        forall|i: int| 0 <= i < s0.len() ==> (#[trigger] s1[i]).tiling_size >= s0[i].tiling_size,
    ensures
        wf_nodes(s1),
{
    assert forall|i: int| 0 <= i < s1.len() implies #[trigger] wf_at(s1, i) by {
        assert(wf_at(s0, i));
        assert(same_structure(s1[i], s0[i]));
        match s1[i].parent {
            Some(p) => {
                assert(same_structure(s1[p as int], s0[p as int]));
            },
            None => {},
        }
        assert forall|k: int| 0 <= k < s1[i].children@.len() implies {
            let e = #[trigger] s1[i].children@[k];
            &&& (e as int) < s1.len()
            &&& i < (e as int)
            &&& s1[e as int].parent == Some(i as usize)
            &&& can_contain(s1[i].kind, s1[e as int].kind)
        } by {
            assert(children_ok(s0, i));
            let e = s0[i].children@[k];
            assert(s1[i].children@[k] == e);
            assert(same_structure(s1[e as int], s0[e as int]));
        }
    }
}

/// Redistribute the space freed by a removed tiling child of `parent`
/// among the children that remain: each gains an equal share of the freed
/// space (the first few gain one extra fixed-point unit where the division
/// leaves a remainder, so that the shares still add up exactly).  A
/// redundant chain of single-child splits left behind — the parent itself
/// when it is an attached split holding one child, or otherwise a sole
/// remaining child that is such a split — is then flattened away one
/// level at a time, until a container that is not a single-child split
/// takes the chain's place.
#[verifier::rlimit(100)]
pub fn resize_sibling_containers(tree: &mut Tree, parent: usize, tiling_size: u32) -> (r: Result<
    (),
    TreeError,
>)
    requires
        old(tree).wf(),
        (parent as int) < old(tree).nodes@.len(),
        old(tree).nodes@[parent as int].kind == Kind::Split || old(tree).nodes@[parent as int].kind
            == Kind::Workspace,
        sizes_ok_except(old(tree).nodes@, parent as int),
        old(tree).nodes@[parent as int].children@.len() > 0 ==> child_sum(
            old(tree).nodes@,
            old(tree).nodes@[parent as int].children@,
        ) + tiling_size == FULL_SIZE as int,
    ensures
        final(tree).wf(),
        final(tree).sizes_consistent(),
        final(tree).nodes@.len() == old(tree).nodes@.len(),
        kinds_unchanged(old(tree).nodes@, final(tree).nodes@),
        no_new_attachments(old(tree).nodes@, final(tree).nodes@),
        no_new_children(old(tree).nodes@, final(tree).nodes@),
        forall|i: int|
            0 <= i < final(tree).nodes@.len() && #[trigger] degenerate(final(tree).nodes@, i)
                ==> degenerate(old(tree).nodes@, i) && (i == parent as int ==> old(tree).nodes@[parent as int].children@.len() == 0),
        old(tree).nodes@[parent as int].children@.len() > 1 ==> equal_increments(
            old(tree).nodes@,
            final(tree).nodes@,
            parent as int,
            tiling_size as int,
        ),
        resize_effect(old(tree).nodes@, final(tree).nodes@, parent as int, tiling_size as int),
        r is Ok,
{
    let ghost s0 = tree.nodes@;
    let total = tree.node_count();
    let cs = tree.children_of(parent);
    let n = cs.len();
    if n > 0 {
        proof {
            assert(wf_at(s0, parent as int));
            assert forall|k: int|
                0 <= k < cs@.len() implies s0[#[trigger] cs@[k] as int].tiling_size >= 1 by {
                assert(children_ok(s0, parent as int));
                let e = s0[parent as int].children@[k];
                assert(cs@[k] == e);
                assert(can_contain(s0[parent as int].kind, s0[e as int].kind));
                assert(is_tiling_kind(s0[e as int].kind));
                assert(wf_at(s0, e as int));
                assert(size_positive(s0, e as int));
            }
            lemma_sum_lower_bound(s0, cs@);
            assert(n <= FULL_SIZE as int);
        }
        let inc: u32 = tiling_size / (n as u32);
        let rem: u32 = tiling_size % (n as u32);
        proof {
            vstd::arithmetic::div_mod::lemma_fundamental_div_mod(tiling_size as int, n as int);
            vstd::arithmetic::div_mod::lemma_mod_division_less_than_divisor(
                tiling_size as int,
                n as int,
            );
        }
        let mut k: usize = 0;
        while k < n
            invariant
                n == cs@.len(),
                cs@ == s0[parent as int].children@,
                (parent as int) < s0.len(),
                wf_nodes(s0),
                sizes_ok_except(s0, parent as int),
                tree.nodes@.len() == s0.len(),
                k <= n,
                n <= FULL_SIZE as int,
                forall|m: int| 0 <= m < n ==> (#[trigger] cs@[m] as int) < s0.len(),
                forall|i: int|
                    0 <= i < s0.len() ==> #[trigger] same_structure(tree.nodes@[i], s0[i]),
                forall|i: int|
                    0 <= i < s0.len() && !cs@.contains(i as usize) ==> (#[trigger] tree.nodes@[i]).tiling_size
                        == s0[i].tiling_size,
                forall|m: int|
                    0 <= m < k ==> (#[trigger] tree.nodes@[cs@[m] as int]).tiling_size == s0[cs@[m] as int].tiling_size
                        + inc + (if m < rem as int {
                        1int
                    } else {
                        0int
                    }),
                forall|m: int|
                    k <= m < n ==> (#[trigger] tree.nodes@[cs@[m] as int]).tiling_size == s0[cs@[m] as int].tiling_size,
                inc == tiling_size as int / n as int,
                rem == tiling_size as int % n as int,
                (inc as int) * (n as int) + rem as int == tiling_size as int,
                (rem as int) < (n as int),
                child_sum(s0, cs@) + tiling_size == FULL_SIZE as int,
            decreases n - k,
        {
            let c = cs[k];
            proof {
                assert(wf_at(s0, parent as int));
                assert(children_ok(s0, parent as int));
                assert(cs@[k as int] == s0[parent as int].children@[k as int]);
                assert((c as int) < s0.len());
                assert(cs@.contains(c));
                lemma_member_le_sum(s0, cs@, k as int);
                assert(s0[c as int].tiling_size <= FULL_SIZE as int - tiling_size as int);
                assert((inc as int) * (n as int) >= inc as int) by (nonlinear_arith)
                    requires
                        n as int >= 1,
                        inc as int >= 0,
                ;
                assert(children_distinct(s0, parent as int));
            }
            let add: u32 = if (k as u32) < rem {
                inc + 1
            } else {
                inc
            };
            let mut cnode = tree.nodes[c].clone();
            let oldsz = cnode.tiling_size;
            proof {
                assert(oldsz == s0[c as int].tiling_size);
                assert(oldsz + add <= FULL_SIZE);
            }
            let ghost before = tree.nodes@;
            cnode.tiling_size = oldsz + add;
            tree.nodes.set(c, cnode);
            proof {
                assert forall|m: int| 0 <= m < n && m != k implies cs@[m] != c by {
                    if m < k {
                        assert(cs@[m] != cs@[k as int]);
                    } else {
                        assert(cs@[k as int] != cs@[m]);
                    }
                }
                assert(same_structure(tree.nodes@[c as int], before[c as int]));
                assert forall|i: int|
                    0 <= i < s0.len() implies #[trigger] same_structure(
                    tree.nodes@[i],
                    s0[i],
                ) by {
                    assert(same_structure(before[i], s0[i]));
                    if i != c as int {
                        assert(tree.nodes@[i] == before[i]);
                    }
                }
            }
            k = k + 1;
        }
        proof {
            lemma_sum_shifted(s0, tree.nodes@, cs@, inc as int, rem as int);
            assert((inc as int) * (n as int) == (n as int) * (inc as int)) by (nonlinear_arith);
            assert(child_sum(tree.nodes@, cs@) == FULL_SIZE as int);
            assert forall|i: int|
                0 <= i < s0.len() implies (#[trigger] tree.nodes@[i]).tiling_size
                >= s0[i].tiling_size by {
                if cs@.contains(i as usize) {
                    let w = choose|w: int| 0 <= w < cs@.len() && cs@[w] == i as usize;
                    assert(tree.nodes@[cs@[w] as int].tiling_size == s0[cs@[w] as int].tiling_size
                        + inc + (if w < rem as int {
                        1int
                    } else {
                        0int
                    }));
                }
            }
            assert(same_structure(tree.nodes@[parent as int], s0[parent as int]));
            assert(tree.nodes@[parent as int].children@ == cs@);
            assert(cs@.len() as int == n as int);
            assert forall|m: int|
                0 <= m < cs@.len() implies (#[trigger] tree.nodes@[cs@[m] as int]).tiling_size
                == s0[cs@[m] as int].tiling_size + (tiling_size as int / cs@.len() as int) + (
            if m < tiling_size as int % cs@.len() as int {
                1int
            } else {
                0int
            }) by {
                assert(tree.nodes@[cs@[m] as int].tiling_size == s0[cs@[m] as int].tiling_size
                    + inc + (if m < rem as int {
                    1int
                } else {
                    0int
                }));
            }
            assert(equal_increments(s0, tree.nodes@, parent as int, tiling_size as int));
            lemma_wf_structure_preserved(s0, tree.nodes@);
            // size conservation everywhere after the redistribution
            assert forall|i: int|
                0 <= i < tree.nodes@.len() implies #[trigger] split_sum_ok(tree.nodes@, i) by {
                let s1 = tree.nodes@;
                assert(same_structure(s1[i], s0[i]));
                if i == parent as int {
                    assert(s1[i].children@ == cs@);
                } else {
                    assert(split_sum_ok(s0, i));
                    if (s1[i].kind == Kind::Split || s1[i].kind == Kind::Workspace)
                        && s1[i].children@.len() > 0 {
                        let ics = s0[i].children@;
                        assert forall|m: int|
                            0 <= m < ics.len() implies s0[#[trigger] ics[m] as int].tiling_size
                                == s1[ics[m] as int].tiling_size by {
                            assert(wf_at(s0, i));
                            assert(children_ok(s0, i));
                            let e = s0[i].children@[m];
                            assert(ics[m] == e);
                            assert(s0[e as int].parent == Some(i as usize));
                            if cs@.contains(e) {
                                let w = choose|w: int| 0 <= w < cs@.len() && cs@[w] == e;
                                assert(s0[parent as int].children@[w] == e);
                                assert(children_ok(s0, parent as int));
                                assert(s0[e as int].parent == Some(parent));
                            }
                        }
                        lemma_sum_sizes_agree(s0, s1, ics);
                    }
                }
            }
        }
    } else {
        proof {
            assert forall|i: int|
                0 <= i < tree.nodes@.len() implies #[trigger] split_sum_ok(tree.nodes@, i) by {
                if i != parent as int {
                    assert(split_sum_ok(s0, i));
                }
            }
        }
    }
    proof {
        assert forall|i: int|
            0 <= i < s0.len() implies #[trigger] same_structure(tree.nodes@[i], s0[i]) by {}
    }
    // collapse a redundant chain of single-child splits, if one remains
    let ghost s1 = tree.nodes@;
    proof {
        lemma_same_nodes_refl(s1);
        assert(wf_nodes(s1));
        assert(s0.len() <= usize::MAX as int);
        assert forall|i: int|
            0 <= i < s0.len() && !s0[parent as int].children@.contains(i as usize) implies s1[i].tiling_size
            == s0[i].tiling_size by {
            assert(s1 == tree.nodes@);
        }
        lemma_chain_same_structure(s0, s1, parent as int);
    }
    // the cascade starts at the parent itself if it was left a redundant
    // attached split, else at a sole remaining child (the redundant
    // sibling of the detached container)
    let mut cur = parent;
    if !(tree.kind_of(cur) == Kind::Split && tree.child_count(cur) == 1 && tree.parent_of(
        cur,
    ).is_some()) {
        if tree.child_count(parent) == 1 {
            cur = tree.child_at(parent, 0);
            proof {
                assert(wf_at(s1, parent as int));
                assert(children_ok(s1, parent as int));
                assert(s1[parent as int].children@[0] == cur);
            }
        }
    }
    let ghost start = cur as int;
    proof {
        assert(parent <= start < s1.len());
        if collapsible(s1, start) {
            let g = s1[start].parent.unwrap() as int;
            assert forall|k: int|
                0 <= k < s1[g].children@.len() implies (#[trigger] s1[g].children@[k]) == (
            if s1[g].children@[k] == start as usize {
                cur
            } else {
                s1[g].children@[k]
            }) by {}
            assert forall|k: int|
                0 <= k < s1[g].focus_order@.len() implies (#[trigger] s1[g].focus_order@[k]) == (
            if s1[g].focus_order@[k] == start as usize {
                cur
            } else {
                s1[g].focus_order@[k]
            }) by {}
            assert(splice_state(s1, s1, start, start));
            assert(on_chain(s1, start, start));
        }
    }
    while tree.kind_of(cur) == Kind::Split && tree.child_count(cur) == 1 && tree.parent_of(
        cur,
    ).is_some()
        invariant
            (cur as int) < tree.nodes@.len(),
            (parent as int) < s1.len(),
            cur >= parent,
            (parent as int) <= start < s1.len(),
            start <= cur as int,
            wf_nodes(s1),
            s1.len() <= usize::MAX as int,
            tree.wf(),
            tree.sizes_consistent(),
            tree.nodes@.len() == s1.len(),
            kinds_unchanged(s1, tree.nodes@),
            no_new_attachments(s1, tree.nodes@),
            no_new_children(s1, tree.nodes@),
            fewer_degenerates(s1, tree.nodes@),
            cur as int == start ==> same_nodes(tree.nodes@, s1),
            cur as int != start ==> tree.nodes@[start].parent is None
                && tree.nodes@[start].children@.len() == 0
                && tree.nodes@[start].focus_order@.len() == 0,
            !collapsible(s1, start) ==> cur as int == start,
            collapsible(s1, start) ==> splice_state(s1, tree.nodes@, start, cur as int) && (
            on_chain(s1, start, cur as int) || cur as int == chain_end(s1, start)),
        decreases tree.nodes@.len() - cur,
    {
        let ghost sb = tree.nodes@;
        let child = tree.child_at(cur, 0);
        proof {
            assert(wf_at(sb, cur as int));
            assert(children_ok(sb, cur as int));
            assert((child as int) < sb.len());
            assert((cur as int) < child as int);
            assert(single_child_split(sb, cur as int));
        }
        let _ = flatten_split_container(tree, cur);
        proof {
            let sc = tree.nodes@;
            assert(flatten_effect(sb, sc, cur as int));
            assert forall|i: int|
                0 <= i < s1.len() implies (#[trigger] sc[i]).kind == s1[i].kind && sc[i].orientation
                == s1[i].orientation by {
                assert(sb[i].kind == s1[i].kind && sb[i].orientation == s1[i].orientation);
            }
            assert forall|i: int|
                0 <= i < s1.len() && (#[trigger] s1[i]).parent is None implies sc[i].parent
                is None by {
                assert(sb[i].parent is None);
            }
            assert forall|i: int|
                0 <= i < s1.len() && (#[trigger] s1[i]).children@.len() == 0
                    && s1[i].focus_order@.len() == 0 implies sc[i].children@.len() == 0
                && sc[i].focus_order@.len() == 0 by {
                assert(sb[i].children@.len() == 0 && sb[i].focus_order@.len() == 0);
            }
            assert forall|i: int|
                0 <= i < sc.len() && #[trigger] degenerate(sc, i) implies degenerate(s1, i) by {
                assert(degenerate(sb, i));
            }
            if cur as int == start {
                assert(sc[start].parent is None);
                assert(sc[start].children@.len() == 0);
                assert(sc[start].focus_order@.len() == 0);
                assert(same_nodes(sb, s1));
                assert(node_eq(sb[start], s1[start]));
                assert(s1[start].children@.len() == 1);
            } else {
                assert(start != child as int && cur as int != start);
                assert(node_eq(sc[start], sb[start]));
                assert(sb[start].parent is None);
            }
            if !collapsible(s1, start) {
                // the guard cannot have held: cur was the start and the
                // tree there matched s1, which is not a collapsible split
                assert(same_nodes(sb, s1));
                assert(node_eq(sb[start], s1[start]));
                assert(wf_at(s1, start));
                assert(children_ok(s1, start));
                assert(s1[start].children@[0] == sb[start].children@[0]);
                assert(collapsible(s1, start));
                assert(false);
            } else {
                let c0 = start;
                let g = s1[c0].parent.unwrap() as int;
                assert(wf_at(s1, c0));
                assert(parent_link_ok(s1, c0));
                assert(g < c0);
                assert(splice_state(s1, sb, c0, cur as int));
                // cur is on the cascade: the cascade's end is not a
                // collapsible split, yet the guard held
                assert(on_chain(s1, c0, cur as int)) by {
                    if !on_chain(s1, c0, cur as int) {
                        assert(cur as int == chain_end(s1, c0));
                        lemma_chain_end_attached(s1, c0);
                        assert(s1[cur as int].kind == sb[cur as int].kind);
                        assert(s1[cur as int].children@ == sb[cur as int].children@);
                        assert(s1[cur as int].parent is Some);
                        assert(wf_at(s1, cur as int));
                        assert(children_ok(s1, cur as int));
                        assert(s1[cur as int].children@[0] == sb[cur as int].children@[0]);
                        assert(collapsible(s1, cur as int));
                        assert(false);
                    }
                }
                lemma_on_chain_facts(s1, c0, cur as int);
                // the child the cascade moves to was untouched so far
                assert((child as int) != g && (child as int) != cur as int);
                assert(node_eq(sb[child as int], s1[child as int])) by {
                    if !node_eq(sb[child as int], s1[child as int]) {
                        assert(sb[child as int].parent is None);
                        assert(wf_at(sb, cur as int));
                        assert(children_ok(sb, cur as int));
                        assert(sb[cur as int].children@[0] == child);
                        assert(sb[child as int].parent == Some(cur));
                        assert(false);
                    }
                }
                assert(s1[cur as int].children@[0] == child);
                assert(sb[cur as int].parent == Some(g as usize));
                // the grandparent's lists now show the child in c0's slot
                assert forall|k: int|
                    0 <= k < s1[g].children@.len() implies (#[trigger] sc[g].children@[k]) == (
                if s1[g].children@[k] == c0 as usize {
                    child
                } else {
                    s1[g].children@[k]
                }) by {
                    assert(sb[g].children@[k] == (if s1[g].children@[k] == c0 as usize {
                        cur
                    } else {
                        s1[g].children@[k]
                    }));
                    if s1[g].children@[k] != c0 as usize && s1[g].children@[k] == cur {
                        assert(wf_at(s1, g));
                        assert(children_ok(s1, g));
                        assert(s1[cur as int].parent == Some(g as usize));
                        if cur as int == c0 {
                        } else {
                            lemma_on_chain_parent(s1, c0, cur as int);
                        }
                        assert(false);
                    }
                }
                assert forall|k: int|
                    0 <= k < s1[g].focus_order@.len() implies (#[trigger] sc[g].focus_order@[k])
                    == (if s1[g].focus_order@[k] == c0 as usize {
                    child
                } else {
                    s1[g].focus_order@[k]
                }) by {
                    assert(sb[g].focus_order@[k] == (if s1[g].focus_order@[k] == c0 as usize {
                        cur
                    } else {
                        s1[g].focus_order@[k]
                    }));
                    if s1[g].focus_order@[k] != c0 as usize && s1[g].focus_order@[k] == cur {
                        assert(s1[g].focus_order@.contains(cur));
                        lemma_focus_no_duplicates(s1, g);
                        assert(s1[g].children@.contains(cur));
                        let k2 = choose|k2: int|
                            0 <= k2 < s1[g].children@.len() && s1[g].children@[k2] == cur;
                        assert(wf_at(s1, g));
                        assert(children_ok(s1, g));
                        assert(s1[cur as int].parent == Some(g as usize));
                        if cur as int == c0 {
                        } else {
                            lemma_on_chain_parent(s1, c0, cur as int);
                        }
                        assert(false);
                    }
                }
                // frame for the new state
                assert forall|i: int|
                    0 <= i < s1.len() && i != g && i != child as int implies node_eq(
                    #[trigger] sc[i],
                    s1[i],
                ) || (on_chain(s1, c0, i) && sc[i].parent is None && sc[i].children@.len() == 0
                    && sc[i].focus_order@.len() == 0) by {
                    if i == cur as int {
                        assert(sc[i].parent is None);
                        assert(sc[i].children@.len() == 0 && sc[i].focus_order@.len() == 0);
                    } else {
                        assert(node_eq(sc[i], sb[i]));
                    }
                }
                assert(splice_state(s1, sc, c0, child as int));
                // the moved-to child is the next cascade container, or the end
                if collapsible(s1, child as int) {
                    lemma_on_chain_extend(s1, c0, cur as int);
                } else {
                    assert(chain_end(s1, cur as int) == chain_end(s1, child as int));
                    assert(chain_end(s1, child as int) == child as int);
                    assert(chain_end(s1, c0) == child as int);
                }
            }
        }
        cur = child;
    }
    proof {
        let sf = tree.nodes@;
        if !collapsible(s1, start) {
            assert(cur as int == start);
            assert(same_nodes(sf, s1));
            assert forall|i: int|
                0 <= i < s0.len() implies #[trigger] same_structure(sf[i], s0[i]) by {
                assert(node_eq(sf[i], s1[i]));
                assert(same_structure(s1[i], s0[i]));
            }
            assert forall|i: int|
                0 <= i < s0.len() && !s0[parent as int].children@.contains(i as usize) implies (
            #[trigger] sf[i]).tiling_size == s0[i].tiling_size by {
                assert(node_eq(sf[i], s1[i]));
                assert(s1[i].tiling_size == s0[i].tiling_size);
            }
            if s0[parent as int].children@.len() >= 1 {
                assert(equal_increments(s0, s1, parent as int, tiling_size as int));
                let cs = s0[parent as int].children@;
                assert(same_structure(s1[parent as int], s0[parent as int]));
                assert(node_eq(sf[parent as int], s1[parent as int]));
                assert(sf[parent as int].children@ == cs);
                assert forall|m: int|
                    0 <= m < cs.len() implies (#[trigger] sf[cs[m] as int]).tiling_size == s0[cs[m] as int].tiling_size
                    + (tiling_size as int) / (cs.len() as int) + (if m < (tiling_size as int) % (
                cs.len() as int) {
                    1int
                } else {
                    0int
                }) by {
                    assert(wf_at(s0, parent as int));
                    assert(children_ok(s0, parent as int));
                    let e = s0[parent as int].children@[m];
                    assert(cs[m] == e);
                    assert(node_eq(sf[e as int], s1[e as int]));
                    assert(s1[cs[m] as int].tiling_size == s0[cs[m] as int].tiling_size + (
                    tiling_size as int) / (cs.len() as int) + (if m < (tiling_size as int) % (
                    cs.len() as int) {
                        1int
                    } else {
                        0int
                    }));
                }
                assert(equal_increments(s0, sf, parent as int, tiling_size as int));
            }
        } else {
            let c0 = start;
            let g = s1[c0].parent.unwrap() as int;
            assert(collapsible(s1, c0));
            assert(wf_at(s1, c0));
            assert(parent_link_ok(s1, c0));
            assert(g < c0);
            assert(splice_state(s1, sf, c0, cur as int));
            // the loop stopped at the cascade's end
            assert(cur as int == chain_end(s1, c0)) by {
                if on_chain(s1, c0, cur as int) {
                    lemma_on_chain_facts(s1, c0, cur as int);
                    assert(sf[cur as int].kind == s1[cur as int].kind);
                    assert(sf[cur as int].children@ == s1[cur as int].children@);
                    assert(sf[cur as int].parent is Some);
                    assert(false);
                }
            }
            lemma_chain_same_structure(s0, s1, c0);
            let w = chain_end(s0, c0);
            assert(w == cur as int);
            lemma_chain_end_bounds(s1, c0);
            assert(c0 < w);
            // the cascade started at the parent or at its sole child, and
            // in either shape the parent held exactly one child
            assert(c0 == parent as int || c0 == s1[parent as int].children@[0] as int);
            assert(s1[parent as int].children@.len() == 1);
            assert(same_structure(s1[parent as int], s0[parent as int]));
            let c1 = s0[parent as int].children@[0] as int;
            assert(wf_at(s1, parent as int));
            assert(children_ok(s1, parent as int));
            assert((parent as int) < c1);
            // away from the sole child, the redistribution changed nothing
            assert forall|i: int|
                0 <= i < s0.len() && i != c1 implies #[trigger] node_eq(s1[i], s0[i]) by {
                assert(same_structure(s1[i], s0[i]));
                if s0[parent as int].children@.contains(i as usize) {
                    let k = choose|k: int|
                        0 <= k < s0[parent as int].children@.len() && s0[parent as int].children@[k]
                            == i as usize;
                    assert(k == 0);
                    assert(false);
                } else {
                    assert(s1[i].tiling_size == s0[i].tiling_size);
                }
            }
            assert(node_eq(s1[g], s0[g]));
            // the share the cascade's end inherits
            let share = s1[c0].tiling_size as int;
            if c0 == parent as int {
                assert(node_eq(s1[c0], s0[c0]));
                assert(share == s0[c0].tiling_size as int);
            } else {
                assert(c0 == c1);
                assert(equal_increments(s0, s1, parent as int, tiling_size as int));
                let cs = s0[parent as int].children@;
                assert(cs.len() == 1);
                assert(cs[0] == c0 as usize);
                vstd::arithmetic::div_mod::lemma_fundamental_div_mod(tiling_size as int, 1);
                vstd::arithmetic::div_mod::lemma_mod_division_less_than_divisor(
                    tiling_size as int,
                    1,
                );
                assert(s1[cs[0] as int].tiling_size == s0[cs[0] as int].tiling_size + (
                tiling_size as int) / 1 + (if 0 < (tiling_size as int) % 1 {
                    1int
                } else {
                    0int
                }));
                assert(share == s0[c0].tiling_size + tiling_size as int);
            }
            // the cascade ran at least once, detaching and emptying c0
            assert(cur as int != start);
            assert(sf[c0].parent is None);
            assert(sf[c0].children@.len() == 0 && sf[c0].focus_order@.len() == 0);
            assert(same_structure(s1[c0], s0[c0]));
            assert(sf[w].parent == s0[c0].parent);
            assert(sf[w].tiling_size == share);
            assert(same_structure(s1[w], s0[w]));
            assert forall|k: int|
                0 <= k < s0[g].children@.len() implies (#[trigger] sf[g].children@[k]) == (
            if s0[g].children@[k] == c0 as usize {
                w as usize
            } else {
                s0[g].children@[k]
            }) by {
                assert(sf[g].children@[k] == (if s1[g].children@[k] == c0 as usize {
                    cur
                } else {
                    s1[g].children@[k]
                }));
            }
            assert forall|k: int|
                0 <= k < s0[g].focus_order@.len() implies (#[trigger] sf[g].focus_order@[k]) == (
            if s0[g].focus_order@[k] == c0 as usize {
                w as usize
            } else {
                s0[g].focus_order@[k]
            }) by {
                assert(sf[g].focus_order@[k] == (if s1[g].focus_order@[k] == c0 as usize {
                    cur
                } else {
                    s1[g].focus_order@[k]
                }));
            }
            assert forall|i: int|
                0 <= i < s0.len() && i != g && i != w implies node_eq(#[trigger] sf[i], s0[i]) || (
            on_chain(s0, c0, i) && sf[i].parent is None && sf[i].children@.len() == 0
                && sf[i].focus_order@.len() == 0) by {
                assert(on_chain(s1, c0, i) == on_chain(s0, c0, i));
                if i == c1 {
                    if node_eq(sf[i], s1[i]) {
                        if c1 == c0 {
                            // the cascade's own start is detached, so it
                            // cannot have kept its old attached state
                            assert(sf[c0].parent is None);
                            assert(s1[c0].parent is Some);
                            assert(false);
                        }
                        assert(s1[c0].children@[0] == c1 as usize);
                        assert(children_ok(s1, c0));
                        assert(s1[c1].parent == Some(c0 as usize));
                        assert(sf[c1].parent == Some(c0 as usize));
                        assert(wf_at(sf, c1));
                        assert(parent_link_ok(sf, c1));
                        assert(sf[c0].children@.contains(c1 as usize));
                        assert(c0 != g && c0 != w);
                        if node_eq(sf[c0], s1[c0]) {
                            assert(sf[c0].parent == Some(g as usize));
                            assert(wf_at(sf, c0));
                            assert(parent_link_ok(sf, c0));
                            assert(sf[g].children@.contains(c0 as usize));
                            let k = choose|k: int|
                                0 <= k < sf[g].children@.len() && sf[g].children@[k]
                                    == c0 as usize;
                            assert(sf[g].children@[k] == (if s1[g].children@[k] == c0 as usize {
                                cur
                            } else {
                                s1[g].children@[k]
                            }));
                            assert(false);
                        } else {
                            assert(sf[c0].children@.len() == 0);
                            assert(false);
                        }
                    }
                } else {
                    if node_eq(sf[i], s1[i]) {
                        assert(node_eq(s1[i], s0[i]));
                    }
                }
            }
            assert(collapse_outcome(s0, sf, c0, share));
        }
        assert(resize_effect(s0, sf, parent as int, tiling_size as int)) by {
            if collapsible(s0, parent as int) {
                assert(collapsible(s1, parent as int));
                assert(start == parent as int);
            }
            if child_cascade(s0, parent as int) {
                let c = s0[parent as int].children@[0] as int;
                lemma_chain_same_structure(s0, s1, c);
                assert(collapsible(s1, c));
                assert(!collapsible(s1, parent as int));
                assert(start == c);
            }
            if !collapsible(s0, parent as int) && !child_cascade(s0, parent as int)
                && collapsible(s1, start) {
                if start == parent as int {
                    assert(collapsible(s0, parent as int));
                    assert(false);
                } else {
                    lemma_chain_same_structure(s0, s1, start);
                    assert(collapsible(s0, start));
                    assert(s0[parent as int].children@.len() == 1);
                    assert(s0[parent as int].children@[0] == start as usize);
                    assert(child_cascade(s0, parent as int));
                    assert(false);
                }
            }
        }
        assert forall|i: int|
            0 <= i < sf.len() && #[trigger] degenerate(sf, i) implies degenerate(s0, i) && (i
            == parent as int ==> s0[parent as int].children@.len() == 0) by {
            assert(degenerate(s1, i));
            assert(same_structure(s1[i], s0[i]));
            if i == parent as int {
                assert(sf[parent as int].parent is Some);
                if start == parent as int {
                    assert(cur == parent);
                    assert(same_nodes(sf, s1));
                    assert(node_eq(sf[i], s1[i]));
                    assert(sf[i].kind == Kind::Split);
                    assert(sf[i].children@.len() != 1);
                } else {
                    // the cascade started at the parent's sole child, so
                    // the parent was not a collapsible split; but an
                    // attached split holding one child is collapsible
                    assert(s1[parent as int].children@.len() == 1);
                    if collapsible(s1, start) {
                        assert(wf_at(s1, parent as int));
                        assert(children_ok(s1, parent as int));
                        assert(s1[parent as int].children@[0] == start as usize);
                        assert(s1[start].parent == Some(parent));
                        assert(splice_state(s1, sf, start, cur as int));
                        assert(s1[start].parent.unwrap() as int == parent as int);
                        assert(sf[parent as int].parent == s1[parent as int].parent);
                        assert(sf[parent as int].kind == s1[parent as int].kind);
                    } else {
                        assert(cur as int == start);
                        assert(same_nodes(sf, s1));
                        assert(node_eq(sf[i], s1[i]));
                    }
                    assert(s1[parent as int].kind == Kind::Split);
                    assert(s1[parent as int].parent is Some);
                    assert(collapsible(s1, parent as int));
                    assert(false);
                }
            }
        }
        assert forall|i: int|
            0 <= i < s0.len() && (#[trigger] s0[i]).parent is None implies tree.nodes@[i].parent
            is None by {
            assert(same_structure(s1[i], s0[i]));
            assert(s1[i].parent is None);
        }
        assert forall|i: int|
            0 <= i < s0.len() && (#[trigger] s0[i]).children@.len() == 0 && s0[i].focus_order@.len()
                == 0 implies tree.nodes@[i].children@.len() == 0
            && tree.nodes@[i].focus_order@.len() == 0 by {
            assert(same_structure(s1[i], s0[i]));
            assert(s1[i].children@.len() == 0 && s1[i].focus_order@.len() == 0);
        }
        assert forall|i: int|
            0 <= i < s0.len() implies (#[trigger] tree.nodes@[i]).kind == s0[i].kind
            && tree.nodes@[i].orientation == s0[i].orientation by {
            assert(same_structure(s1[i], s0[i]));
            assert(tree.nodes@[i].kind == s1[i].kind && tree.nodes@[i].orientation
                == s1[i].orientation);
        }
    }
    Ok(())
}

/// When detaching `t` must fail with `NoParent`: either `t` is the root or
/// already detached, or its parent is a single-child split (which must be
/// flattened into a grandparent first) and that grandparent is missing.
pub open spec fn detach_blocked(s: Seq<Node>, t: int) -> bool {
    ||| s[t].parent is None
    ||| {
        let p = s[t].parent.unwrap() as int;
        &&& s[p].kind == Kind::Split
        &&& s[p].children@.len() == 1
        &&& s[p].parent is None
    }
}

/// What collapsing a cascade of single-child splits starting at the
/// collapsible `c0` does: the cascade's end takes `c0`'s slot in both of
/// the parent's lists and the given `share` of space, keeping its own
/// contents; every other container is untouched, except that the cascade's
/// splits themselves end up detached and emptied.
pub open spec fn collapse_outcome(s0: Seq<Node>, s1: Seq<Node>, c0: int, share: int) -> bool {
    let g = s0[c0].parent.unwrap() as int;
    let w = chain_end(s0, c0);
    &&& s1.len() == s0.len()
    &&& s1[c0].parent is None
    &&& s1[c0].children@.len() == 0
    &&& s1[c0].focus_order@.len() == 0
    &&& s1[w].parent == s0[c0].parent
    &&& s1[w].tiling_size == share
    &&& s1[w].kind == s0[w].kind
    &&& s1[w].orientation == s0[w].orientation
    &&& s1[w].children@ == s0[w].children@
    &&& s1[w].focus_order@ == s0[w].focus_order@
    &&& s1[g].children@.len() == s0[g].children@.len()
    &&& s1[g].focus_order@.len() == s0[g].focus_order@.len()
    &&& (forall|k: int|
        0 <= k < s0[g].children@.len() ==> (#[trigger] s1[g].children@[k]) == (
        if s0[g].children@[k] == c0 as usize {
            w as usize
        } else {
            s0[g].children@[k]
        }))
    &&& (forall|k: int|
        0 <= k < s0[g].focus_order@.len() ==> (#[trigger] s1[g].focus_order@[k]) == (
        if s0[g].focus_order@[k] == c0 as usize {
            w as usize
        } else {
            s0[g].focus_order@[k]
        }))
    &&& s1[g].kind == s0[g].kind
    &&& s1[g].orientation == s0[g].orientation
    &&& s1[g].parent == s0[g].parent
    &&& s1[g].tiling_size == s0[g].tiling_size
    &&& (forall|i: int|
        0 <= i < s0.len() && i != g && i != w ==> node_eq(#[trigger] s1[i], s0[i]) || (on_chain(
            s0,
            c0,
            i,
        ) && s1[i].parent is None && s1[i].children@.len() == 0 && s1[i].focus_order@.len() == 0))
}

/// The state in the middle of collapsing a cascade that started at `c0`:
/// `cur` currently occupies `c0`'s slot and share, the cascade containers
/// already passed are detached and emptied, and nothing else has changed
/// since `s1`.
spec fn splice_state(s1: Seq<Node>, sc: Seq<Node>, c0: int, cur: int) -> bool {
    let g = s1[c0].parent.unwrap() as int;
    &&& sc.len() == s1.len()
    &&& 0 <= cur < s1.len()
    &&& sc[cur].parent == s1[c0].parent
    &&& sc[cur].tiling_size == s1[c0].tiling_size
    &&& sc[cur].kind == s1[cur].kind
    &&& sc[cur].orientation == s1[cur].orientation
    &&& sc[cur].children@ == s1[cur].children@
    &&& sc[cur].focus_order@ == s1[cur].focus_order@
    &&& sc[g].children@.len() == s1[g].children@.len()
    &&& sc[g].focus_order@.len() == s1[g].focus_order@.len()
    &&& (forall|k: int|
        0 <= k < s1[g].children@.len() ==> (#[trigger] sc[g].children@[k]) == (
        if s1[g].children@[k] == c0 as usize {
            cur as usize
        } else {
            s1[g].children@[k]
        }))
    &&& (forall|k: int|
        0 <= k < s1[g].focus_order@.len() ==> (#[trigger] sc[g].focus_order@[k]) == (
        if s1[g].focus_order@[k] == c0 as usize {
            cur as usize
        } else {
            s1[g].focus_order@[k]
        }))
    &&& sc[g].kind == s1[g].kind
    &&& sc[g].orientation == s1[g].orientation
    &&& sc[g].parent == s1[g].parent
    &&& sc[g].tiling_size == s1[g].tiling_size
    &&& (forall|i: int|
        0 <= i < s1.len() && i != g && i != cur ==> node_eq(#[trigger] sc[i], s1[i]) || (on_chain(
            s1,
            c0,
            i,
        ) && sc[i].parent is None && sc[i].children@.len() == 0 && sc[i].focus_order@.len() == 0))
}

/// The redundant shape that remains when the detached container's only
/// sibling is itself a single-child split: the parent (a workspace, or a
/// split with no parent of its own) keeps exactly one child, and that
/// child is an attached single-child split, so the cascade must start at
/// the child.
pub open spec fn child_cascade(s: Seq<Node>, parent: int) -> bool {
    &&& !collapsible(s, parent)
    &&& s[parent].children@.len() == 1
    &&& collapsible(s, s[parent].children@[0] as int)
}

/// Everything `resize_sibling_containers` does to the arena.  Unless a
/// redundant attached split remains — the parent itself, or its sole
/// child — no structure changes: the children (if any) absorb the freed
/// space by equal increments and every other size is kept.  A redundant
/// attached split starts a cascade whose outcome is `collapse_outcome`:
/// anchored at the parent with the parent's own share, or at the sole
/// child with that child's share grown by the freed space it absorbed.
pub open spec fn resize_effect(s0: Seq<Node>, s1: Seq<Node>, parent: int, freed: int) -> bool {
    &&& s1.len() == s0.len()
    &&& (!collapsible(s0, parent) && !child_cascade(s0, parent) ==> {
        &&& (forall|i: int| 0 <= i < s0.len() ==> #[trigger] same_structure(s1[i], s0[i]))
        &&& (forall|i: int|
            0 <= i < s0.len() && !s0[parent].children@.contains(i as usize) ==> (#[trigger] s1[i]).tiling_size
                == s0[i].tiling_size)
        &&& (s0[parent].children@.len() >= 1 ==> equal_increments(s0, s1, parent, freed))
    })
    &&& (collapsible(s0, parent) ==> collapse_outcome(s0, s1, parent, s0[parent].tiling_size as int))
    &&& (child_cascade(s0, parent) ==> collapse_outcome(
        s0,
        s1,
        s0[parent].children@[0] as int,
        s0[s0[parent].children@[0] as int].tiling_size + freed,
    ))
}

/// The structural part of a detach, between the arena with `t` still
/// attached (`sa`) and the arena after (`sb`): `t`'s entry is gone from
/// positions `j` and `jf` of `eff`'s child list and focus order, `t` is a
/// cleared, detached node, its former children are detached roots of their
/// own subtrees, and every other container is untouched.  No tiling size
/// changes.
pub open spec fn removal_effect(sa: Seq<Node>, sb: Seq<Node>, eff: int, t: int, j: int, jf: int) -> bool {
    &&& sb.len() == sa.len()
    &&& 0 <= eff < t < sa.len()
    &&& sa[t].parent == Some(eff as usize)
    &&& 0 <= j < sa[eff].children@.len()
    &&& sa[eff].children@[j] == t as usize
    &&& 0 <= jf < sa[eff].focus_order@.len()
    &&& sa[eff].focus_order@[jf] == t as usize
    &&& sb[eff].children@ == sa[eff].children@.remove(j)
    &&& sb[eff].focus_order@ == sa[eff].focus_order@.remove(jf)
    &&& sb[eff].kind == sa[eff].kind
    &&& sb[eff].orientation == sa[eff].orientation
    &&& sb[eff].parent == sa[eff].parent
    &&& sb[eff].tiling_size == sa[eff].tiling_size
    &&& sb[t].parent is None
    &&& sb[t].children@.len() == 0
    &&& sb[t].focus_order@.len() == 0
    &&& sb[t].kind == sa[t].kind
    &&& sb[t].orientation == sa[t].orientation
    &&& sb[t].tiling_size == sa[t].tiling_size
    &&& (forall|i: int|
        0 <= i < sa.len() && sa[t].children@.contains(i as usize) ==> (#[trigger] sb[i]).parent
            is None && sb[i].kind == sa[i].kind && sb[i].orientation == sa[i].orientation
            && sb[i].children@ == sa[i].children@ && sb[i].focus_order@ == sa[i].focus_order@
            && sb[i].tiling_size == sa[i].tiling_size)
    &&& (forall|i: int|
        0 <= i < sa.len() && i != eff && i != t && !sa[t].children@.contains(i as usize)
            ==> #[trigger] node_eq(sb[i], sa[i]))
}

/// The common detach outcome, seen from the tree before (`s0`) and after
/// (`s1`): the sibling at position `j` under `t`'s parent was `t` itself;
/// the other siblings keep their order and each gains an equal share of
/// `t`'s freed space, the first few one extra fixed-point unit where the
/// division leaves a remainder.
pub open spec fn detach_keeps_siblings(s0: Seq<Node>, s1: Seq<Node>, t: int, j: int) -> bool {
    let p = s0[t].parent.unwrap() as int;
    let rl = s0[p].children@.remove(j);
    let n = rl.len() as int;
    let freed = s0[t].tiling_size as int;
    &&& 0 <= j < s0[p].children@.len()
    &&& s0[p].children@[j] == t as usize
    &&& s1[p].children@ == rl
    &&& forall|m: int|
        0 <= m < n ==> (#[trigger] s1[rl[m] as int]).tiling_size == s0[rl[m] as int].tiling_size
            + freed / n + (if m < freed % n {
            1int
        } else {
            0int
        })
}

/// The correctness argument for the structural part of a detach: between
/// `sa` (the arena with `t` still attached to `eff`) and `sb`, the entry
/// for `t` has been removed from `eff`'s child list and focus order, `t`
/// itself has been cleared, and `t`'s former children have become detached
/// roots of their own subtrees.
proof fn lemma_detach_removal(sa: Seq<Node>, sb: Seq<Node>, eff: int, t: int, j: int, jf: int)
    requires
        wf_nodes(sa),
        sizes_ok(sa),
        sa.len() <= usize::MAX as int,
        removal_effect(sa, sb, eff, t, j, jf),
    ensures
        wf_nodes(sb),
        sizes_ok_except(sb, eff),
        sb[eff].children@.len() == sa[eff].children@.len() - 1,
        (sa[eff].kind == Kind::Split || sa[eff].kind == Kind::Workspace) && sb[eff].children@.len()
            > 0 ==> child_sum(sb, sb[eff].children@) + sa[t].tiling_size == FULL_SIZE as int,
        kinds_unchanged(sa, sb),
        no_new_attachments(sa, sb),
        no_new_children(sa, sb),
        forall|i: int|
            0 <= i < sb.len() && i != eff && #[trigger] degenerate(sb, i) ==> degenerate(sa, i),
        forall|i: int| 0 <= i < sb.len() ==> !(#[trigger] sb[i]).children@.contains(t as usize),
        forall|i: int| 0 <= i < sa.len() ==> (#[trigger] sb[i]).tiling_size == sa[i].tiling_size,
{
    assert(wf_at(sa, eff));
    assert(wf_at(sa, t));
    // position j is the only occurrence of t in eff's child list
    assert forall|k: int|
        0 <= k < sa[eff].children@.len() && k != j implies sa[eff].children@[k] != t as usize by {
        if k < j {
            assert(sa[eff].children@[k] != sa[eff].children@[j]);
        } else {
            assert(sa[eff].children@[j] != sa[eff].children@[k]);
        }
    }
    lemma_focus_no_duplicates(sa, eff);
    assert forall|k: int|
        0 <= k < sa[eff].focus_order@.len() && k != jf implies sa[eff].focus_order@[k]
            != t as usize by {
        assert(sa[eff].focus_order@[k] != sa[eff].focus_order@[jf]);
    }
    // kinds are everywhere unchanged
    assert forall|i: int| 0 <= i < sa.len() implies (#[trigger] sb[i]).kind == sa[i].kind
        && sb[i].orientation == sa[i].orientation by {
        if i != eff && i != t && !sa[t].children@.contains(i as usize) {
            assert(node_eq(sb[i], sa[i]));
        }
    }
    // an id listed by eff after the removal was listed before, at j's side
    assert forall|k: int| 0 <= k < sb[eff].children@.len() implies #[trigger] sb[eff].children@[k]
        == (if k < j {
        sa[eff].children@[k]
    } else {
        sa[eff].children@[k + 1]
    }) && sb[eff].children@[k] != t as usize by {}
    // t's former children are above t, hence distinct from eff and t
    assert forall|i: int|
        0 <= i < sa.len() && #[trigger] sa[t].children@.contains(i as usize) implies t < i by {
        let k = choose|k: int|
            0 <= k < sa[t].children@.len() && sa[t].children@[k] == i as usize;
        assert(children_ok(sa, t));
        assert(sa[t].children@[k] == i as usize);
    }
    // structural well-formedness of the result
    assert forall|i: int| 0 <= i < sb.len() implies #[trigger] wf_at(sb, i) by {
        assert(wf_at(sa, i));
        if i == t {
            assert(sb[t].children@ =~= Seq::<usize>::empty());
            assert(sb[t].focus_order@ =~= Seq::<usize>::empty());
            assert(wf_at(sb, i));
        } else if i == eff {
            match sb[eff].parent {
                Some(q) => {
                    let qi = q as int;
                    assert(parent_link_ok(sa, eff));
                    assert(qi < eff);
                    assert(!sa[t].children@.contains(q));
                    assert(node_eq(sb[qi], sa[qi]));
                    assert(sb[qi].children@.contains(eff as usize));
                },
                None => {},
            }
            assert forall|k: int| 0 <= k < sb[eff].children@.len() implies {
                let e = #[trigger] sb[eff].children@[k];
                &&& (e as int) < sb.len()
                &&& eff < (e as int)
                &&& sb[e as int].parent == Some(eff as usize)
                &&& can_contain(sb[eff].kind, sb[e as int].kind)
            } by {
                let e = sb[eff].children@[k];
                let k0: int = if k < j {
                    k
                } else {
                    k + 1
                };
                assert(e == sa[eff].children@[k0]);
                assert(children_ok(sa, eff));
                assert((e as int) < sa.len() && eff < (e as int) && sa[e as int].parent == Some(
                    eff as usize,
                ));
                assert(e != t as usize);
                assert(!sa[t].children@.contains(e)) by {
                    if sa[t].children@.contains(e) {
                        let m = choose|m: int|
                            0 <= m < sa[t].children@.len() && sa[t].children@[m] == e;
                        assert(children_ok(sa, t));
                        assert(sa[e as int].parent == Some(t as usize));
                    }
                }
                assert(node_eq(sb[e as int], sa[e as int]));
            }
            assert forall|k1: int, k2: int|
                0 <= k1 < k2 < sb[eff].children@.len() implies sb[eff].children@[k1]
                    != sb[eff].children@[k2] by {
                let a: int = if k1 < j {
                    k1
                } else {
                    k1 + 1
                };
                let b: int = if k2 < j {
                    k2
                } else {
                    k2 + 1
                };
                assert(sa[eff].children@[a] != sa[eff].children@[b]);
            }
            assert(sb[eff].children@.to_multiset() == sa[eff].children@.to_multiset().remove(
                t as usize,
            ));
            assert(sb[eff].focus_order@.to_multiset() == sa[eff].focus_order@.to_multiset().remove(
                t as usize,
            ));
            assert(focus_matches_children(sb, eff));
            assert(wf_at(sb, i));
        } else if sa[t].children@.contains(i as usize) {
            assert(t < i);
            assert forall|k: int| 0 <= k < sb[i].children@.len() implies {
                let e = #[trigger] sb[i].children@[k];
                &&& (e as int) < sb.len()
                &&& i < (e as int)
                &&& sb[e as int].parent == Some(i as usize)
                &&& can_contain(sb[i].kind, sb[e as int].kind)
            } by {
                assert(children_ok(sa, i));
                let e = sa[i].children@[k];
                assert(sb[i].children@[k] == e);
                assert((e as int) < sa.len() && i < (e as int) && sa[e as int].parent == Some(
                    i as usize,
                ));
                assert(e != t as usize && (e as int) != eff);
                assert(!sa[t].children@.contains(e)) by {
                    if sa[t].children@.contains(e) {
                        assert(sa[e as int].parent == Some(t as usize));
                    }
                }
                assert(node_eq(sb[e as int], sa[e as int]));
            }
            assert(wf_at(sb, i));
        } else {
            assert(node_eq(sb[i], sa[i]));
            match sb[i].parent {
                Some(p) => {
                    let pi = p as int;
                    assert(parent_link_ok(sa, i));
                    if pi == eff {
                        let k0 = choose|k0: int|
                            0 <= k0 < sa[eff].children@.len() && sa[eff].children@[k0]
                                == i as usize;
                        assert(k0 != j);
                        let k: int = if k0 < j {
                            k0
                        } else {
                            k0 - 1
                        };
                        assert(sb[eff].children@[k] == i as usize);
                        assert(sb[eff].children@.contains(i as usize));
                    } else if pi == t {
                        assert(sa[t].children@.contains(i as usize));
                        assert(false);
                    } else if sa[t].children@.contains(p) {
                        assert(sb[pi].children@ == sa[pi].children@);
                        assert(sb[pi].children@.contains(i as usize));
                    } else {
                        assert(node_eq(sb[pi], sa[pi]));
                        assert(sb[pi].children@.contains(i as usize));
                    }
                },
                None => {},
            }
            assert forall|k: int| 0 <= k < sb[i].children@.len() implies {
                let e = #[trigger] sb[i].children@[k];
                &&& (e as int) < sb.len()
                &&& i < (e as int)
                &&& sb[e as int].parent == Some(i as usize)
                &&& can_contain(sb[i].kind, sb[e as int].kind)
            } by {
                assert(children_ok(sa, i));
                let e = sa[i].children@[k];
                assert(sb[i].children@[k] == e);
                assert((e as int) < sa.len() && i < (e as int) && sa[e as int].parent == Some(
                    i as usize,
                ));
                assert(e != t as usize) by {
                    if e == t as usize {
                        assert(sa[t].parent == Some(i as usize));
                    }
                }
                assert(!sa[t].children@.contains(e)) by {
                    if sa[t].children@.contains(e) {
                        assert(sa[e as int].parent == Some(t as usize));
                    }
                }
                if (e as int) == eff {
                    assert(sb[eff].parent == sa[eff].parent);
                } else {
                    assert(node_eq(sb[e as int], sa[e as int]));
                }
            }
            assert(wf_at(sb, i));
        }
    }
    // no size changed, so every sum but eff's is conserved
    assert forall|i: int| 0 <= i < sb.len() && i != eff implies #[trigger] split_sum_ok(sb, i) by {
        assert(split_sum_ok(sa, i));
        assert(wf_at(sa, i));
        if i == t {
            assert(sb[t].children@.len() == 0);
        } else if (sb[i].kind == Kind::Split || sb[i].kind == Kind::Workspace)
            && sb[i].children@.len() > 0 {
            let cs = sa[i].children@;
            if sa[t].children@.contains(i as usize) {
            } else {
                assert(node_eq(sb[i], sa[i]));
            }
            assert(sb[i].children@ == cs);
            assert forall|m: int|
                0 <= m < cs.len() implies sa[#[trigger] cs[m] as int].tiling_size == sb[cs[m] as int].tiling_size by {
                assert(children_ok(sa, i));
                let e = sa[i].children@[m];
                assert(cs[m] == e);
                if (e as int) == eff || (e as int) == t {
                } else if sa[t].children@.contains(e) {
                } else {
                    assert(node_eq(sb[e as int], sa[e as int]));
                }
            }
            lemma_sum_sizes_agree(sa, sb, cs);
        }
    }
    // eff's sum lost exactly t's share
    if (sa[eff].kind == Kind::Split || sa[eff].kind == Kind::Workspace) && sb[eff].children@.len()
        > 0 {
        lemma_sum_remove(sa, sa[eff].children@, j);
        assert(split_sum_ok(sa, eff));
        assert(child_sum(sa, sa[eff].children@) == FULL_SIZE as int);
        let csb = sb[eff].children@;
        assert forall|m: int|
            0 <= m < csb.len() implies sa[#[trigger] csb[m] as int].tiling_size == sb[csb[m] as int].tiling_size by {
            let e = csb[m];
            assert(sb[eff].children@[m] == e);
            if (e as int) == eff || (e as int) == t {
            } else if sa[t].children@.contains(e) {
            } else {
                assert(node_eq(sb[e as int], sa[e as int]));
            }
        }
        lemma_sum_sizes_agree(sa, sb, csb);
    }
    // nothing lists t as a child any more
    assert forall|i: int|
        0 <= i < sb.len() implies !(#[trigger] sb[i]).children@.contains(t as usize) by {
        if sb[i].children@.contains(t as usize) {
            let k = choose|k: int|
                0 <= k < sb[i].children@.len() && sb[i].children@[k] == t as usize;
            if i == eff {
            } else if i == t {
            } else if sa[t].children@.contains(i as usize) {
                assert(sa[i].children@[k] == t as usize);
                assert(wf_at(sa, i));
                assert(children_ok(sa, i));
                assert(sa[t].parent == Some(i as usize));
            } else {
                assert(node_eq(sb[i], sa[i]));
                assert(sa[i].children@[k] == t as usize);
                assert(wf_at(sa, i));
                assert(children_ok(sa, i));
                assert(sa[t].parent == Some(i as usize));
            }
        }
    }
    // degeneracy away from eff is unchanged
    assert forall|i: int|
        0 <= i < sb.len() && i != eff && #[trigger] degenerate(sb, i) implies degenerate(
        sa,
        i,
    ) by {
        if i != t && !sa[t].children@.contains(i as usize) {
            assert(node_eq(sb[i], sa[i]));
        }
    }
    // no container's size changed
    assert forall|i: int|
        0 <= i < sa.len() implies (#[trigger] sb[i]).tiling_size == sa[i].tiling_size by {
        if i != eff && i != t && !sa[t].children@.contains(i as usize) {
            assert(node_eq(sb[i], sa[i]));
        }
    }
    // detached containers stay detached, and emptied ones stay empty
    assert forall|i: int|
        0 <= i < sa.len() && (#[trigger] sa[i]).parent is None implies sb[i].parent is None by {
        if i != eff && i != t && !sa[t].children@.contains(i as usize) {
            assert(node_eq(sb[i], sa[i]));
        }
    }
    assert forall|i: int|
        0 <= i < sa.len() && (#[trigger] sa[i]).children@.len() == 0 && sa[i].focus_order@.len()
            == 0 implies sb[i].children@.len() == 0 && sb[i].focus_order@.len() == 0 by {
        if i == eff {
            assert(sa[eff].children@.len() > 0);
        } else if i != t && !sa[t].children@.contains(i as usize) {
            assert(node_eq(sb[i], sa[i]));
        }
    }
}

/// Remove a container from the tree, leaving the tree fully consistent.
///
/// If the container's parent is a split that would be left empty, that
/// split is flattened into the grandparent first, so the freed space is
/// accounted against the right container.  The container's id is removed
/// from the effective parent's child list and focus order; the container
/// itself becomes a detached, standalone node and its former children
/// become detached roots of their own.  If the container carried a tiling
/// size, the freed share is redistributed equally among the remaining
/// siblings, and a redundant chain of single-child splits left behind is
/// collapsed.  Detaching the root (or a container whose required ancestor
/// is missing) fails with `NoParent` and changes nothing.
#[verifier::rlimit(60)]
pub fn detach_container(tree: &mut Tree, target: usize) -> (r: Result<(), TreeError>)
    requires
        old(tree).wf(),
        old(tree).sizes_consistent(),
        (target as int) < old(tree).nodes@.len(),
    ensures
        final(tree).wf(),
        final(tree).sizes_consistent(),
        final(tree).nodes@.len() == old(tree).nodes@.len(),
        kinds_unchanged(old(tree).nodes@, final(tree).nodes@),
        r is Err <==> detach_blocked(old(tree).nodes@, target as int),
        r is Err ==> r == Err::<(), TreeError>(TreeError::NoParent) && same_nodes(
            final(tree).nodes@,
            old(tree).nodes@,
        ),
        r is Ok ==> final(tree).nodes@[target as int].parent is None && final(tree).nodes@[target as int].children@.len() == 0 && final(tree).nodes@[target as int].focus_order@.len() == 0,
        r is Ok ==> forall|i: int|
            0 <= i < final(tree).nodes@.len() ==> !(#[trigger] final(tree).nodes@[i]).children@.contains(target),
        fewer_degenerates(old(tree).nodes@, final(tree).nodes@),
        tidy(old(tree).nodes@) ==> tidy(final(tree).nodes@),
        r is Ok && is_tiling_kind(old(tree).nodes@[target as int].kind) && !single_child_split(
            old(tree).nodes@,
            old(tree).nodes@[target as int].parent.unwrap() as int,
        ) && old(tree).nodes@[old(tree).nodes@[target as int].parent.unwrap() as int].children@.len()
            >= 3 ==> exists|j: int|
            detach_keeps_siblings(old(tree).nodes@, final(tree).nodes@, target as int, j),
        // step by step: removing a non-tiling container only edits the
        // parent's lists and clears the container
        ({
            let s = old(tree).nodes@;
            let p = s[target as int].parent.unwrap() as int;
            r is Ok && !is_tiling_kind(s[target as int].kind) ==> exists|j: int, jf: int|
                removal_effect(s, final(tree).nodes@, p, target as int, j, jf)
        }),
        // a tiling container under a parent that keeps other children:
        // removal, then redistribution (with its possible cascade)
        ({
            let s = old(tree).nodes@;
            let p = s[target as int].parent.unwrap() as int;
            r is Ok && is_tiling_kind(s[target as int].kind) && !single_child_split(s, p)
                ==> exists|j: int, jf: int, mid: Seq<Node>|
                removal_effect(s, mid, p, target as int, j, jf) && resize_effect(
                    mid,
                    final(tree).nodes@,
                    p,
                    s[target as int].tiling_size as int,
                )
        }),
        // the sole child of a split: the emptied split is flattened into
        // the grandparent first, and removal and redistribution work there
        ({
            let s = old(tree).nodes@;
            let p = s[target as int].parent.unwrap() as int;
            r is Ok && is_tiling_kind(s[target as int].kind) && single_child_split(s, p)
                ==> exists|j: int, jf: int, mid1: Seq<Node>, mid2: Seq<Node>|
                flatten_effect(s, mid1, p) && removal_effect(
                    mid1,
                    mid2,
                    s[p].parent.unwrap() as int,
                    target as int,
                    j,
                    jf,
                ) && resize_effect(
                    mid2,
                    final(tree).nodes@,
                    s[p].parent.unwrap() as int,
                    s[p].tiling_size as int,
                )
        }),
{
    let ghost s_init = tree.nodes@;
    let total = tree.node_count();
    let popt = tree.parent_of(target);
    if popt.is_none() {
        proof {
            lemma_same_nodes_refl(s_init);
        }
        return Err(TreeError::NoParent);
    }
    let p0 = popt.unwrap();
    proof {
        assert(wf_at(s_init, target as int));
        assert(parent_link_ok(s_init, target as int));
        assert((p0 as int) < target as int);
        assert(s_init[p0 as int].children@.contains(target));
    }
    let mut eff: usize = p0;
    let ghost pre_flatten = s_init[p0 as int].kind == Kind::Split && s_init[p0 as int].children@.len() == 1;
    if tree.kind_of(p0) == Kind::Split && tree.child_count(p0) == 1 {
        let gopt = tree.parent_of(p0);
        if gopt.is_none() {
            proof {
                lemma_same_nodes_refl(s_init);
            }
            return Err(TreeError::NoParent);
        }
        eff = gopt.unwrap();
        let _ = flatten_split_container(tree, p0);
        proof {
            let k = choose|k: int|
                0 <= k < s_init[p0 as int].children@.len() && s_init[p0 as int].children@[k]
                    == target;
            assert(k == 0);
            assert(s_init[p0 as int].children@[0] == target);
            assert(single_child_split(s_init, p0 as int));
            assert(flatten_effect(s_init, tree.nodes@, p0 as int));
            assert(tree.nodes@[target as int].parent == Some(eff));
        }
    }
    let ghost s_a = tree.nodes@;
    proof {
        assert(s_a[target as int].parent == Some(eff));
        assert(wf_at(s_a, target as int));
        assert(parent_link_ok(s_a, target as int));
        assert((eff as int) < target as int);
        assert(s_a[eff as int].children@.contains(target));
        if !pre_flatten {
            assert(s_a == s_init);
        }
    }
    // remove the target's id from the effective parent's lists
    let mut enode = tree.nodes[eff].clone();
    let jopt = index_of(&enode.children, target);
    proof {
        if jopt is None {
            assert(false);
        }
    }
    let j = jopt.unwrap();
    let jfopt = index_of(&enode.focus_order, target);
    proof {
        lemma_focus_no_duplicates(s_a, eff as int);
        assert(s_a[eff as int].focus_order@.contains(target));
        if jfopt is None {
            assert(false);
        }
    }
    let jf = jfopt.unwrap();
    let _ = enode.children.remove(j);
    let _ = enode.focus_order.remove(jf);
    tree.nodes.set(eff, enode);
    let ghost s_r = tree.nodes@;
    // the target's own children become detached roots of their subtrees
    let t_children = tree.children_of(target);
    proof {
        assert(t_children@ == s_a[target as int].children@);
        assert(children_ok(s_a, target as int));
        assert(children_distinct(s_a, target as int));
    }
    let tc_len = t_children.len();
    let mut k: usize = 0;
    while k < tc_len
        invariant
            k <= tc_len,
            tc_len == t_children@.len(),
            t_children@ == s_a[target as int].children@,
            children_ok(s_a, target as int),
            children_distinct(s_a, target as int),
            (target as int) < s_a.len(),
            s_r.len() == s_a.len(),
            tree.nodes@.len() == s_r.len(),
            forall|m: int|
                0 <= m < tc_len ==> (target as int) < (#[trigger] t_children@[m] as int)
                    < s_a.len(),
            forall|m: int|
                0 <= m < k ==> (#[trigger] tree.nodes@[t_children@[m] as int]).parent is None
                    && tree.nodes@[t_children@[m] as int].kind == s_r[t_children@[m] as int].kind
                    && tree.nodes@[t_children@[m] as int].orientation == s_r[t_children@[m] as int].orientation
                    && tree.nodes@[t_children@[m] as int].children@ == s_r[t_children@[m] as int].children@
                    && tree.nodes@[t_children@[m] as int].focus_order@ == s_r[t_children@[m] as int].focus_order@
                    && tree.nodes@[t_children@[m] as int].tiling_size == s_r[t_children@[m] as int].tiling_size,
            forall|i: int|
                0 <= i < s_r.len() && (forall|m: int| 0 <= m < k ==> t_children@[m] != i as usize)
                    ==> #[trigger] node_eq(tree.nodes@[i], s_r[i]),
        decreases tc_len - k,
    {
        let c = t_children[k];
        proof {
            assert(t_children@[k as int] == c);
            assert((c as int) < tree.nodes@.len());
        }
        let mut cnode = tree.nodes[c].clone();
        cnode.parent = None;
        let ghost before = tree.nodes@;
        tree.nodes.set(c, cnode);
        proof {
            assert forall|m: int| 0 <= m < tc_len && m != k implies t_children@[m] != c by {
                if m < k {
                    assert(t_children@[m] != t_children@[k as int]);
                } else {
                    assert(t_children@[k as int] != t_children@[m]);
                }
            }
            assert(node_eq(before[c as int], s_r[c as int]));
        }
        k = k + 1;
    }
    // clear the target itself
    let ghost s_o = tree.nodes@;
    let mut tnode = tree.nodes[target].clone();
    tnode.parent = None;
    tnode.children = Vec::new();
    tnode.focus_order = Vec::new();
    tree.nodes.set(target, tnode);
    let ghost s_b = tree.nodes@;
    proof {
        // assemble the removal relation between s_a and s_b
        assert((eff as int) != target as int);
        // the target's former children are all above it, so none of them is
        // the target itself or the effective parent
        assert(forall|m: int|
            0 <= m < tc_len ==> t_children@[m] != target && t_children@[m] != eff);
        assert(node_eq(s_o[target as int], s_r[target as int]));
        assert(node_eq(s_r[target as int], s_a[target as int]));
        assert forall|i: int|
            0 <= i < s_a.len() && s_a[target as int].children@.contains(i as usize) implies (
        #[trigger] s_b[i]).parent is None && s_b[i].kind == s_a[i].kind && s_b[i].orientation
            == s_a[i].orientation && s_b[i].children@ == s_a[i].children@ && s_b[i].focus_order@
            == s_a[i].focus_order@ && s_b[i].tiling_size == s_a[i].tiling_size by {
            let m = choose|m: int|
                0 <= m < s_a[target as int].children@.len() && s_a[target as int].children@[m]
                    == i as usize;
            assert(t_children@[m] == i as usize);
            assert((target as int) < i);
            assert(s_o[i].parent is None && s_o[i].kind == s_r[i].kind && s_o[i].orientation
                == s_r[i].orientation && s_o[i].children@ == s_r[i].children@
                && s_o[i].focus_order@ == s_r[i].focus_order@ && s_o[i].tiling_size
                == s_r[i].tiling_size);
            assert(s_b[i] == s_o[i]);
            assert(node_eq(s_r[i], s_a[i]));
        }
        assert forall|i: int|
            0 <= i < s_a.len() && i != eff as int && i != target as int && !s_a[target as int].children@.contains(
                i as usize,
            ) implies #[trigger] node_eq(s_b[i], s_a[i]) by {
            assert forall|m: int| 0 <= m < tc_len implies t_children@[m] != i as usize by {
                if t_children@[m] == i as usize {
                    assert(s_a[target as int].children@[m] == i as usize);
                    assert(s_a[target as int].children@.contains(i as usize));
                }
            }
            assert(node_eq(s_o[i], s_r[i]));
            assert(s_b[i] == s_o[i]);
            assert(node_eq(s_r[i], s_a[i]));
        }
        assert forall|m: int| 0 <= m < tc_len implies t_children@[m] != eff by {}
        assert(node_eq(s_o[eff as int], s_r[eff as int]));
        assert(s_b[eff as int] == s_o[eff as int]);
        lemma_detach_removal(s_a, s_b, eff as int, target as int, j as int, jf as int);
    }
    // redistribute freed space if the detached container was tiling
    let tk = tree.kind_of(target);
    if tk == Kind::Split || tk == Kind::Window {
        proof {
            assert(wf_at(s_a, eff as int));
            assert(children_ok(s_a, eff as int));
            assert(s_a[eff as int].children@[j as int] == target);
            assert(can_contain(s_a[eff as int].kind, s_a[target as int].kind));
            assert(s_a[eff as int].kind == Kind::Split || s_a[eff as int].kind == Kind::Workspace);
            assert(s_b[eff as int].kind == s_a[eff as int].kind);
        }
        let freed = tree.tiling_size_of(target);
        let _ = resize_sibling_containers(tree, eff, freed);
        proof {
            let sf = tree.nodes@;
            assert forall|i: int|
                0 <= i < s_init.len() implies (#[trigger] sf[i]).kind == s_init[i].kind
                && sf[i].orientation == s_init[i].orientation by {
                assert(s_a[i].kind == s_init[i].kind && s_a[i].orientation
                    == s_init[i].orientation);
                assert(s_b[i].kind == s_a[i].kind && s_b[i].orientation == s_a[i].orientation);
                assert(sf[i].kind == s_b[i].kind && sf[i].orientation == s_b[i].orientation);
            }
            assert(sf[target as int].parent is None);
            assert(sf[target as int].children@.len() == 0 && sf[target as int].focus_order@.len()
                == 0);
            // degeneracy did not spread
            assert forall|i: int|
                0 <= i < sf.len() && #[trigger] degenerate(sf, i) implies degenerate(
                s_init,
                i,
            ) by {
                assert(degenerate(s_b, i));
                if i == eff as int {
                    assert(s_b[eff as int].children@.len() == 0);
                    assert(s_a[eff as int].children@.len() == 1);
                    assert(pre_flatten);
                    assert(degenerate(s_b, i) ==> s_b[i].kind == Kind::Split);
                    assert(s_init[eff as int].kind == Kind::Split);
                    assert(s_b[eff as int].parent is Some);
                    assert(s_a[eff as int].parent == s_b[eff as int].parent);
                    assert(s_init[eff as int].parent == s_a[eff as int].parent);
                    assert(s_init[eff as int].children@.len() == 1);
                    assert(degenerate(s_init, i));
                } else {
                    assert(degenerate(s_a, i));
                    if pre_flatten {
                        assert(degenerate(s_init, i));
                    }
                }
            }
            // nothing lists the target
            assert forall|i: int|
                0 <= i < sf.len() implies !(#[trigger] sf[i]).children@.contains(target) by {
                if sf[i].children@.contains(target) {
                    let m = choose|m: int|
                        0 <= m < sf[i].children@.len() && sf[i].children@[m] == target;
                    assert(wf_at(sf, i));
                    assert(children_ok(sf, i));
                    assert(sf[target as int].parent == Some(i as usize));
                }
            }
            assert forall|i: int|
                0 <= i < sf.len() && #[trigger] degenerate(sf, i) && tidy(
                    s_init,
                ) implies false by {}
            // in the common case the siblings keep their order and gain
            // equal shares of the freed space
            if !pre_flatten && s_init[(eff as int)].children@.len() >= 3 {
                assert(s_a == s_init);
                let rl = s_init[(eff as int)].children@.remove(j as int);
                assert(rl == s_b[eff as int].children@);
                assert(rl.len() > 1);
                assert(equal_increments(s_b, sf, eff as int, freed as int));
                assert(freed == s_a[target as int].tiling_size);
                assert forall|m: int|
                    0 <= m < rl.len() implies (#[trigger] sf[rl[m] as int]).tiling_size
                    == s_init[rl[m] as int].tiling_size + (freed as int) / (rl.len() as int) + (
                if m < (freed as int) % (rl.len() as int) {
                    1int
                } else {
                    0int
                }) by {
                    assert(sf[s_b[eff as int].children@[m] as int].tiling_size == s_b[s_b[
                        eff as int
                    ].children@[m] as int].tiling_size + (freed as int) / (s_b[
                        eff as int
                    ].children@.len() as int) + (if m < (freed as int) % (s_b[
                        eff as int
                    ].children@.len() as int) {
                        1int
                    } else {
                        0int
                    }));
                    assert(s_b[rl[m] as int].tiling_size == s_a[rl[m] as int].tiling_size);
                }
                assert(detach_keeps_siblings(s_init, sf, target as int, j as int));
            }
            // the step-by-step outcome
            assert(resize_effect(s_b, sf, eff as int, freed as int));
            assert(freed == s_a[target as int].tiling_size);
            if !pre_flatten {
                assert(s_a == s_init);
                assert(eff == p0);
                assert(removal_effect(s_init, s_b, eff as int, target as int, j as int, jf as int));
                assert(exists|j2: int, jf2: int, mid: Seq<Node>|
                    removal_effect(s_init, mid, p0 as int, target as int, j2, jf2)
                        && resize_effect(
                        mid,
                        sf,
                        p0 as int,
                        s_init[target as int].tiling_size as int,
                    )) by {
                    assert(removal_effect(
                        s_init,
                        s_b,
                        p0 as int,
                        target as int,
                        j as int,
                        jf as int,
                    ) && resize_effect(
                        s_b,
                        sf,
                        p0 as int,
                        s_init[target as int].tiling_size as int,
                    ));
                }
            } else {
                assert(flatten_effect(s_init, s_a, p0 as int));
                assert(s_init[p0 as int].parent.unwrap() == eff);
                assert(freed == s_init[p0 as int].tiling_size);
                assert(exists|j2: int, jf2: int, mid1: Seq<Node>, mid2: Seq<Node>|
                    flatten_effect(s_init, mid1, p0 as int) && removal_effect(
                        mid1,
                        mid2,
                        s_init[p0 as int].parent.unwrap() as int,
                        target as int,
                        j2,
                        jf2,
                    ) && resize_effect(
                        mid2,
                        sf,
                        s_init[p0 as int].parent.unwrap() as int,
                        s_init[p0 as int].tiling_size as int,
                    )) by {
                    assert(flatten_effect(s_init, s_a, p0 as int) && removal_effect(
                        s_a,
                        s_b,
                        eff as int,
                        target as int,
                        j as int,
                        jf as int,
                    ) && resize_effect(
                        s_b,
                        sf,
                        eff as int,
                        s_init[p0 as int].tiling_size as int,
                    ));
                }
            }
        }
    } else {
        proof {
            // the detached container was a workspace, so eff is the root and
            // no tiling space needs redistributing
            assert(wf_at(s_a, eff as int));
            assert(children_ok(s_a, eff as int));
            assert(s_a[eff as int].children@[j as int] == target);
            assert(can_contain(s_a[eff as int].kind, s_a[target as int].kind));
            assert(s_a[target as int].kind != Kind::Root) by {
                if s_a[target as int].kind == Kind::Root {
                    assert(can_contain(s_a[eff as int].kind, Kind::Root));
                }
            }
            assert(s_a[target as int].kind == Kind::Workspace);
            assert(s_a[eff as int].kind == Kind::Root);
            assert forall|i: int|
                0 <= i < s_b.len() implies #[trigger] split_sum_ok(s_b, i) by {
                if i == eff as int {
                    assert(s_b[i].kind == Kind::Root);
                }
            }
            let sf = tree.nodes@;
            assert(sf == s_b);
            assert forall|i: int|
                0 <= i < s_init.len() implies (#[trigger] sf[i]).kind == s_init[i].kind
                && sf[i].orientation == s_init[i].orientation by {
                assert(s_a[i].kind == s_init[i].kind && s_a[i].orientation
                    == s_init[i].orientation);
                assert(s_b[i].kind == s_a[i].kind && s_b[i].orientation == s_a[i].orientation);
            }
            assert forall|i: int|
                0 <= i < sf.len() && #[trigger] degenerate(sf, i) implies degenerate(
                s_init,
                i,
            ) by {
                assert(i != eff as int);
                assert(degenerate(s_a, i));
                if pre_flatten {
                    assert(degenerate(s_init, i));
                }
            }
            assert forall|i: int|
                0 <= i < sf.len() implies !(#[trigger] sf[i]).children@.contains(target) by {}
            // the step-by-step outcome: removal alone.  The parent of a
            // workspace is the root, never a split, so no pre-flatten ran.
            assert(!pre_flatten) by {
                if pre_flatten {
                    assert(wf_at(s_init, p0 as int));
                    assert(parent_link_ok(s_init, target as int));
                    assert(s_init[p0 as int].children@.contains(target));
                    let k = choose|k: int|
                        0 <= k < s_init[p0 as int].children@.len()
                            && s_init[p0 as int].children@[k] == target;
                    assert(children_ok(s_init, p0 as int));
                    assert(can_contain(s_init[p0 as int].kind, s_init[target as int].kind));
                    assert(is_tiling_kind(s_init[target as int].kind));
                    assert(s_a[target as int].kind == s_init[target as int].kind);
                    assert(s_b[target as int].kind == s_a[target as int].kind);
                    assert(false);
                }
            }
            assert(s_a == s_init);
            assert(eff == p0);
            assert(removal_effect(s_init, sf, eff as int, target as int, j as int, jf as int));
            assert(exists|j2: int, jf2: int|
                removal_effect(s_init, sf, p0 as int, target as int, j2, jf2)) by {
                assert(removal_effect(s_init, sf, p0 as int, target as int, j as int, jf as int));
            }
        }
    }
    proof {
        if tidy(s_init) {
            assert forall|i: int| 0 <= i < tree.nodes@.len() implies !(#[trigger] degenerate(
                tree.nodes@,
                i,
            )) by {
                if degenerate(tree.nodes@, i) {
                    assert(degenerate(s_init, i));
                }
            }
        }
    }
    Ok(())
}

} // verus!
