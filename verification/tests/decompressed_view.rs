use hyper_diff::decompressed::{decompress, DecompressedTree};
use hyper_diff::tree_store::{NodeStore, TreeNode};

fn leaf(nodes: &mut Vec<TreeNode>, ty: u32) -> usize {
    nodes.push(TreeNode { ty, label: 0, children: vec![] });
    nodes.len() - 1
}

fn inner(nodes: &mut Vec<TreeNode>, ty: u32, children: Vec<usize>) -> usize {
    nodes.push(TreeNode { ty, label: 0, children });
    nodes.len() - 1
}

/// root(a)[ b[c, d], e ]
fn sample() -> (NodeStore, usize) {
    let mut nodes = Vec::new();
    let c = leaf(&mut nodes, 2);
    let d = leaf(&mut nodes, 3);
    let b = inner(&mut nodes, 1, vec![c, d]);
    let e = leaf(&mut nodes, 4);
    let a = inner(&mut nodes, 0, vec![b, e]);
    (NodeStore { nodes }, a)
}

#[test]
fn store_wf_check() {
    let (s, _) = sample();
    assert!(s.check_wf());
    let bad = NodeStore {
        nodes: vec![TreeNode { ty: 0, label: 0, children: vec![0] }],
    };
    assert!(!bad.check_wf());
}

#[test]
fn post_order_arrays() {
    let (s, a) = sample();
    let t = decompress(&s, a);
    assert_eq!(t.len(), 5);
    assert_eq!(t.root(), 4);
    // post order: c, d, b, e, a
    assert_eq!(t.original, vec![0, 1, 2, 3, 4]);
    assert_eq!(t.lld, vec![0, 1, 0, 3, 0]);
    assert_eq!(t.parent, vec![Some(2), Some(2), Some(4), Some(4), None]);
    assert_eq!(t.first_descendant(2), 0);
    assert_eq!(t.descendants_range(2), (0, 2));
    assert_eq!(t.descendants_count(2), 3);
    assert_eq!(t.descendants_count(0), 1);
    assert_eq!(t.iter_df_post(), vec![0, 1, 2, 3, 4]);
    // key roots: the highest node of each leftmost-leaf value: d(1), e(3), a(4)
    assert_eq!(t.iter_kr(), vec![1, 3, 4]);
}

#[test]
fn slice_matches_fresh_decompression() {
    // the generalised slice equivalence, on every internal node
    let (s, a) = sample();
    let t = decompress(&s, a);
    for v in 0..t.len() {
        let sliced: DecompressedTree = t.slice_po(v);
        let fresh = decompress(&s, t.original(v));
        assert_eq!(sliced.original, fresh.original);
        assert_eq!(sliced.lld, fresh.lld);
        assert_eq!(sliced.kr, fresh.kr);
        assert_eq!(sliced.parent, fresh.parent);
    }
}

#[test]
fn slice_of_subtree_is_rebased() {
    let (s, a) = sample();
    let t = decompress(&s, a);
    let sub = t.slice_po(2); // subtree of b
    assert_eq!(sub.original, vec![0, 1, 2]);
    assert_eq!(sub.lld, vec![0, 1, 0]);
    assert_eq!(sub.kr, vec![1, 2]);
}

#[test]
fn leaf_is_its_own_first_descendant() {
    let (s, a) = sample();
    let t = decompress(&s, a);
    for v in 0..t.len() {
        let is_leaf = t.first_descendant(v) == v;
        let id = t.original(v);
        assert_eq!(is_leaf, s.nodes[id].children.is_empty());
    }
}
