use wm::commands::detach_container;
use wm::commands::flatten_split_container;
use wm::commands::resize_sibling_containers;
use wm::commands::TreeError;
use wm::tree::Kind;
use wm::tree::Orientation;
use wm::tree::Tree;
use wm::tree::FULL_SIZE;

/// A fresh tree with one workspace under the root.
fn tree_with_workspace() -> (Tree, usize) {
    let mut tree = Tree::new();
    let ws = tree.add_child(0, Kind::Workspace, Orientation::Horizontal, FULL_SIZE);
    (tree, ws)
}

#[test]
fn detach_window_flattens_parent_left_with_one_child() {
    // Scenario: split S (horizontal) holds [W1 at 0.5, W2 at 0.5].
    let (mut tree, ws) = tree_with_workspace();
    let s = tree.add_child(ws, Kind::Split, Orientation::Horizontal, FULL_SIZE);
    let w1 = tree.add_child(s, Kind::Window, Orientation::Horizontal, 5000);
    let w2 = tree.add_child(s, Kind::Window, Orientation::Horizontal, 5000);

    detach_container(&mut tree, w1).unwrap();

    // W1 is detached and disowned.
    assert_eq!(tree.parent_of(w1), None);
    // S was left with one child, so it was flattened away: W2 takes S's
    // former slot in the workspace, at S's full share.
    assert_eq!(tree.children_of(ws), vec![w2]);
    assert_eq!(tree.focus_order_of(ws), vec![w2]);
    assert_eq!(tree.parent_of(w2), Some(ws));
    assert_eq!(tree.tiling_size_of(w2), FULL_SIZE);
    assert_eq!(tree.parent_of(s), None);
    assert_eq!(tree.child_count(s), 0);
}

#[test]
fn detach_middle_sibling_redistributes_equally() {
    // Scenario: split S holds [A at 0.2, B at 0.3, C at 0.5]; detaching B
    // hands each remaining sibling an equal half of B's share.
    let (mut tree, ws) = tree_with_workspace();
    let s = tree.add_child(ws, Kind::Split, Orientation::Horizontal, FULL_SIZE);
    let a = tree.add_child(s, Kind::Window, Orientation::Horizontal, 2000);
    let b = tree.add_child(s, Kind::Window, Orientation::Horizontal, 3000);
    let c = tree.add_child(s, Kind::Window, Orientation::Horizontal, 5000);

    detach_container(&mut tree, b).unwrap();

    assert_eq!(tree.children_of(s), vec![a, c]);
    assert_eq!(tree.focus_order_of(s), vec![a, c]);
    assert_eq!(tree.tiling_size_of(a), 3500);
    assert_eq!(tree.tiling_size_of(c), 6500);
    assert_eq!(tree.tiling_size_of(a) + tree.tiling_size_of(c), FULL_SIZE);
    assert_eq!(tree.parent_of(b), None);
    assert_eq!(tree.kind_of(s), Kind::Split);
}

#[test]
fn detach_collapses_deeply_nested_chain() {
    // Scenario: H[ W1, V[ H2[ W2 ] ] ]; detaching W1 leaves a chain of
    // single-child splits that collapses until W2 sits where H stood.
    let (mut tree, ws) = tree_with_workspace();
    let h = tree.add_child(ws, Kind::Split, Orientation::Horizontal, FULL_SIZE);
    let w1 = tree.add_child(h, Kind::Window, Orientation::Horizontal, 5000);
    let v = tree.add_child(h, Kind::Split, Orientation::Vertical, 5000);
    let h2 = tree.add_child(v, Kind::Split, Orientation::Horizontal, FULL_SIZE);
    let w2 = tree.add_child(h2, Kind::Window, Orientation::Horizontal, FULL_SIZE);

    detach_container(&mut tree, w1).unwrap();

    // W2 is reparented directly under the workspace, at full size; the
    // whole chain of splits is gone.
    assert_eq!(tree.children_of(ws), vec![w2]);
    assert_eq!(tree.parent_of(w2), Some(ws));
    assert_eq!(tree.tiling_size_of(w2), FULL_SIZE);
    for split in [h, v, h2] {
        assert_eq!(tree.parent_of(split), None);
        assert_eq!(tree.child_count(split), 0);
        assert_eq!(tree.focus_count(split), 0);
    }
}

#[test]
fn detach_root_fails_with_no_parent() {
    let (mut tree, ws) = tree_with_workspace();
    let err = detach_container(&mut tree, 0).unwrap_err();
    assert_eq!(err, TreeError::NoParent);
    // Nothing changed.
    assert_eq!(tree.children_of(0), vec![ws]);
    assert_eq!(tree.kind_of(0), Kind::Root);
}

#[test]
fn detach_sole_child_flattens_the_emptied_split_first() {
    // S would be left empty, so S is flattened into the workspace before
    // the window's removal is finalized.
    let (mut tree, ws) = tree_with_workspace();
    let s = tree.add_child(ws, Kind::Split, Orientation::Horizontal, FULL_SIZE);
    let w1 = tree.add_child(s, Kind::Window, Orientation::Horizontal, FULL_SIZE);

    detach_container(&mut tree, w1).unwrap();

    assert_eq!(tree.child_count(ws), 0);
    assert_eq!(tree.focus_count(ws), 0);
    assert_eq!(tree.parent_of(w1), None);
    assert_eq!(tree.parent_of(s), None);
    assert_eq!(tree.child_count(s), 0);
}

#[test]
fn detach_workspace_leaves_root_consistent() {
    let (mut tree, ws) = tree_with_workspace();
    let other = tree.add_child(0, Kind::Workspace, Orientation::Horizontal, FULL_SIZE);

    detach_container(&mut tree, ws).unwrap();

    assert_eq!(tree.children_of(0), vec![other]);
    assert_eq!(tree.parent_of(ws), None);
}

#[test]
fn detach_keeps_layout_and_focus_order_of_remaining_siblings() {
    let (mut tree, ws) = tree_with_workspace();
    let s = tree.add_child(ws, Kind::Split, Orientation::Vertical, FULL_SIZE);
    let a = tree.add_child(s, Kind::Window, Orientation::Horizontal, 2500);
    let b = tree.add_child(s, Kind::Window, Orientation::Horizontal, 2500);
    let c = tree.add_child(s, Kind::Window, Orientation::Horizontal, 2500);
    let d = tree.add_child(s, Kind::Window, Orientation::Horizontal, 2500);

    detach_container(&mut tree, c).unwrap();

    assert_eq!(tree.children_of(s), vec![a, b, d]);
    assert_eq!(tree.focus_order_of(s), vec![a, b, d]);
    let total: u32 =
        tree.tiling_size_of(a) + tree.tiling_size_of(b) + tree.tiling_size_of(d);
    assert_eq!(total, FULL_SIZE);
}

#[test]
fn flatten_is_a_no_op_without_single_child_splits() {
    let (mut tree, ws) = tree_with_workspace();
    let s = tree.add_child(ws, Kind::Split, Orientation::Horizontal, FULL_SIZE);
    let a = tree.add_child(s, Kind::Window, Orientation::Horizontal, 5000);
    let b = tree.add_child(s, Kind::Window, Orientation::Horizontal, 5000);

    // Neither a split with two children nor a window is flattened.
    flatten_split_container(&mut tree, s).unwrap();
    flatten_split_container(&mut tree, a).unwrap();

    assert_eq!(tree.children_of(s), vec![a, b]);
    assert_eq!(tree.parent_of(s), Some(ws));
    assert_eq!(tree.tiling_size_of(a), 5000);
    assert_eq!(tree.tiling_size_of(b), 5000);
}

#[test]
fn flatten_splices_sole_child_into_parent_slot() {
    let (mut tree, ws) = tree_with_workspace();
    let left = tree.add_child(ws, Kind::Window, Orientation::Horizontal, 4000);
    let s = tree.add_child(ws, Kind::Split, Orientation::Vertical, 6000);
    let inner = tree.add_child(s, Kind::Window, Orientation::Horizontal, FULL_SIZE);

    flatten_split_container(&mut tree, s).unwrap();

    // The sole child takes the split's slot and the split's share.
    assert_eq!(tree.children_of(ws), vec![left, inner]);
    assert_eq!(tree.focus_order_of(ws), vec![left, inner]);
    assert_eq!(tree.parent_of(inner), Some(ws));
    assert_eq!(tree.tiling_size_of(inner), 6000);
    assert_eq!(tree.parent_of(s), None);
    assert_eq!(tree.child_count(s), 0);
}

#[test]
fn resize_hands_out_remainder_one_unit_at_a_time() {
    // Freed space that does not divide evenly: the first siblings gain one
    // extra fixed-point unit so the shares still sum to the whole.
    let (mut tree, ws) = tree_with_workspace();
    let s = tree.add_child(ws, Kind::Split, Orientation::Horizontal, FULL_SIZE);
    let a = tree.add_child(s, Kind::Window, Orientation::Horizontal, 2000);
    let c = tree.add_child(s, Kind::Window, Orientation::Horizontal, 4999);

    resize_sibling_containers(&mut tree, s, 3001).unwrap();

    assert_eq!(tree.tiling_size_of(a), 3501);
    assert_eq!(tree.tiling_size_of(c), 6499);
    assert_eq!(tree.tiling_size_of(a) + tree.tiling_size_of(c), FULL_SIZE);
}

#[test]
fn detach_then_reuse_of_ids_never_happens() {
    // Ids are stable: detaching does not renumber the arena.
    let (mut tree, ws) = tree_with_workspace();
    let s = tree.add_child(ws, Kind::Split, Orientation::Horizontal, FULL_SIZE);
    let a = tree.add_child(s, Kind::Window, Orientation::Horizontal, 5000);
    let b = tree.add_child(s, Kind::Window, Orientation::Horizontal, 5000);
    let before = tree.node_count();

    detach_container(&mut tree, a).unwrap();

    assert_eq!(tree.node_count(), before);
    assert_eq!(tree.kind_of(a), Kind::Window);
    assert_eq!(tree.kind_of(b), Kind::Window);
    assert_eq!(tree.orientation_of(s), Orientation::Horizontal);
}

#[test]
fn detach_collapses_split_sibling_under_workspace() {
    // Workspace Q holds [X, S[c]]; detaching X leaves the redundant
    // single-child split S, which is flattened away: c takes S's slot
    // directly under the workspace.
    let (mut tree, ws) = tree_with_workspace();
    let x = tree.add_child(ws, Kind::Window, Orientation::Horizontal, 5000);
    let s = tree.add_child(ws, Kind::Split, Orientation::Vertical, 5000);
    let c = tree.add_child(s, Kind::Window, Orientation::Horizontal, FULL_SIZE);

    detach_container(&mut tree, x).unwrap();

    assert_eq!(tree.children_of(ws), vec![c]);
    assert_eq!(tree.focus_order_of(ws), vec![c]);
    assert_eq!(tree.parent_of(c), Some(ws));
    assert_eq!(tree.tiling_size_of(c), FULL_SIZE);
    assert_eq!(tree.parent_of(s), None);
    assert_eq!(tree.child_count(s), 0);
}

#[test]
fn detach_collapses_deep_chain_under_workspace() {
    // Workspace Q holds [X, S[V[c]]]; the whole chain S, V collapses and
    // c ends directly under the workspace at full share.
    let (mut tree, ws) = tree_with_workspace();
    let x = tree.add_child(ws, Kind::Window, Orientation::Horizontal, 4000);
    let s = tree.add_child(ws, Kind::Split, Orientation::Vertical, 6000);
    let v = tree.add_child(s, Kind::Split, Orientation::Horizontal, FULL_SIZE);
    let c = tree.add_child(v, Kind::Window, Orientation::Horizontal, FULL_SIZE);

    detach_container(&mut tree, x).unwrap();

    assert_eq!(tree.children_of(ws), vec![c]);
    assert_eq!(tree.parent_of(c), Some(ws));
    assert_eq!(tree.tiling_size_of(c), FULL_SIZE);
    for split in [s, v] {
        assert_eq!(tree.parent_of(split), None);
        assert_eq!(tree.child_count(split), 0);
        assert_eq!(tree.focus_count(split), 0);
    }
}

#[test]
fn resize_flattens_sole_split_child_of_workspace() {
    // Calling the redistribution directly on a workspace whose one child
    // is a single-child split collapses the split.
    let (mut tree, ws) = tree_with_workspace();
    let s = tree.add_child(ws, Kind::Split, Orientation::Horizontal, 7000);
    let c = tree.add_child(s, Kind::Window, Orientation::Horizontal, FULL_SIZE);

    resize_sibling_containers(&mut tree, ws, 3000).unwrap();

    assert_eq!(tree.children_of(ws), vec![c]);
    assert_eq!(tree.parent_of(c), Some(ws));
    // the split absorbed the freed share before being flattened away, so
    // its sole child inherits the whole of the workspace
    assert_eq!(tree.tiling_size_of(c), FULL_SIZE);
    assert_eq!(tree.parent_of(s), None);
}
