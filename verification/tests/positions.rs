use hyper_diff::full_node::FullNode;
use hyper_diff::position::StructuralPosition;
use hyper_diff::tree_store::{NodeStore, TreeNode};

fn small_store() -> NodeStore {
    // node 2 has children [0, 1]; node 3 has child [2]
    NodeStore {
        nodes: vec![
            TreeNode { ty: 1, label: 0, children: vec![] },
            TreeNode { ty: 2, label: 0, children: vec![] },
            TreeNode { ty: 3, label: 0, children: vec![0, 1] },
            TreeNode { ty: 4, label: 0, children: vec![2] },
        ],
    }
}

#[test]
fn new_starts_with_zero_offset() {
    let p: StructuralPosition<usize> = StructuralPosition::new(7);
    assert_eq!(p.node(), Some(&7));
    assert_eq!(p.offset(), Some(&0));
}

#[test]
fn goto_pushes_one_based_offsets() {
    let mut p: StructuralPosition<usize> = StructuralPosition::new(3);
    p.goto(2, 0);
    p.goto(1, 1);
    assert_eq!(p.node(), Some(&1));
    assert_eq!(p.offset(), Some(&2));
    assert_eq!(p.pop(), Some((1, 2)));
    assert_eq!(p.node(), Some(&2));
}

#[test]
fn inc_and_dec_move_between_siblings() {
    let mut p: StructuralPosition<usize> = StructuralPosition::new(2);
    p.goto(0, 0);
    p.inc(1);
    assert_eq!(p.node(), Some(&1));
    assert_eq!(p.offset(), Some(&2));
    p.dec(0);
    assert_eq!(p.node(), Some(&0));
    assert_eq!(p.offset(), Some(&1));
}

#[test]
fn check_accepts_recorded_paths() {
    let s = small_store();
    let mut p: StructuralPosition<usize> = StructuralPosition::new(3);
    p.goto(2, 0);
    p.goto(1, 1);
    assert_eq!(p.check(&s), Ok(()));
}

#[test]
fn check_rejects_wrong_offset() {
    let s = small_store();
    let mut p: StructuralPosition<usize> = StructuralPosition::new(3);
    p.goto(2, 0);
    p.goto(1, 0); // child 0 of node 2 is node 0, not node 1
    assert_eq!(p.check(&s), Err(()));
}

#[test]
fn check_rejects_leaf_parent() {
    let s = small_store();
    let mut p: StructuralPosition<usize> = StructuralPosition::new(1);
    p.goto(0, 0); // node 1 has no children
    assert_eq!(p.check(&s), Err(()));
}

#[test]
fn from_parts_appends_the_last_node() {
    let p: StructuralPosition<usize> =
        StructuralPosition::from_parts(vec![3, 2], vec![0, 1, 2], 1);
    assert_eq!(p.node(), Some(&1));
    let s = small_store();
    assert_eq!(p.check(&s), Ok(()));
}

#[test]
fn from_pair_keeps_both_stacks() {
    let p: StructuralPosition<usize> = StructuralPosition::from_pair(vec![3, 2], vec![0, 1]);
    assert_eq!(p.node(), Some(&2));
    assert_eq!(p.offset(), Some(&1));
}

#[test]
fn full_node_carries_both_parts() {
    let n = FullNode::new(42u64, "local");
    assert_eq!(*n.global(), 42);
    assert_eq!(*n.local(), "local");
}
