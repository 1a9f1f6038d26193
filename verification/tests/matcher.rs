use hyper_diff::greedy_bottom_up::{GreedyBottomUpMatcher, MatcherConfig};
use hyper_diff::mapping_store::{HashStore, MappingStore, MonoMappingStore, VecStore};
use hyper_diff::tree_store::{LabelStore, NodeStore, TreeNode};

fn leaf(nodes: &mut Vec<TreeNode>, ty: u32, label: usize) -> usize {
    nodes.push(TreeNode { ty, label, children: vec![] });
    nodes.len() - 1
}

fn inner(nodes: &mut Vec<TreeNode>, ty: u32, children: Vec<usize>) -> usize {
    nodes.push(TreeNode { ty, label: 0, children });
    nodes.len() - 1
}

fn labels(n: usize) -> LabelStore {
    LabelStore { labels: (0..n).map(|i| vec![i as u8]).collect() }
}

fn pairs_of(m: &VecStore) -> Vec<(usize, usize)> {
    m._iter().into_iter().filter(|&(s, d)| m.has(s, d)).collect()
}

fn seeded(n1: usize, n2: usize, links: &[(usize, usize)]) -> VecStore {
    let mut m = VecStore::default();
    m.topit(n1, n2);
    for &(s, d) in links {
        m.link(s, d);
    }
    m
}

#[test]
fn degenerate_leaves_pair_the_roots() {
    // S = D = one leaf; empty seed; expected mapping {(0, 0)}
    let mut nodes = Vec::new();
    let s_root = leaf(&mut nodes, 7, 0);
    let d_root = leaf(&mut nodes, 7, 0);
    let store = NodeStore { nodes };
    let ls = labels(2);
    let r = GreedyBottomUpMatcher::<VecStore>::matchh(
        &store,
        &ls,
        s_root,
        d_root,
        VecStore::default(),
        MatcherConfig::default(),
    );
    assert_eq!(pairs_of(&r.mappings), vec![(0, 0)]);
}

#[test]
fn trivial_rename_pairs_only_the_roots() {
    // S = parent(P)[leaf(X)], D = parent(P)[leaf(Y)]: the leaves differ in
    // type, so only the root pair remains
    let mut nodes = Vec::new();
    let sx = leaf(&mut nodes, 10, 0);
    let s_root = inner(&mut nodes, 1, vec![sx]);
    let dy = leaf(&mut nodes, 11, 0);
    let d_root = inner(&mut nodes, 1, vec![dy]);
    let store = NodeStore { nodes };
    let ls = labels(1);
    let r = GreedyBottomUpMatcher::<VecStore>::matchh(
        &store,
        &ls,
        s_root,
        d_root,
        VecStore::default(),
        MatcherConfig::default(),
    );
    assert_eq!(pairs_of(&r.mappings), vec![(1, 1)]);
}

/// Each side: root R with two children of type C, each child holding one
/// leaf.  Returns (store, src_root, dst_root).
fn two_children_case() -> (NodeStore, usize, usize) {
    let mut nodes = Vec::new();
    let sx0 = leaf(&mut nodes, 20, 0);
    let sc0 = inner(&mut nodes, 5, vec![sx0]);
    let sx1 = leaf(&mut nodes, 20, 0);
    let sc1 = inner(&mut nodes, 5, vec![sx1]);
    let s_root = inner(&mut nodes, 2, vec![sc0, sc1]);
    let dx0 = leaf(&mut nodes, 20, 0);
    let dc0 = inner(&mut nodes, 5, vec![dx0]);
    let dx1 = leaf(&mut nodes, 20, 0);
    let dc1 = inner(&mut nodes, 5, vec![dx1]);
    let d_root = inner(&mut nodes, 2, vec![dc0, dc1]);
    let store = NodeStore { nodes };
    (store, s_root, d_root)
}

#[test]
fn dice_pairs_corresponding_parents() {
    // seed maps each grandchild to its twin; the parents then pair
    // respectively and the root pairs
    let (store, s_root, d_root) = two_children_case();
    let ls = labels(1);
    // post order on both sides: x0, c0, x1, c1, root
    let seed = seeded(5, 5, &[(0, 0), (2, 2)]);
    let r = GreedyBottomUpMatcher::<VecStore>::matchh(
        &store,
        &ls,
        s_root,
        d_root,
        seed,
        MatcherConfig::default(),
    );
    assert_eq!(
        pairs_of(&r.mappings),
        vec![(0, 0), (1, 1), (2, 2), (3, 3), (4, 4)]
    );
}

#[test]
fn equal_dice_breaks_ties_toward_earliest_destination() {
    // one source parent, two equally similar destination parents: the
    // earlier post-order destination wins
    let mut nodes = Vec::new();
    let sx1 = leaf(&mut nodes, 20, 0);
    let sx2 = leaf(&mut nodes, 21, 0);
    let sc = inner(&mut nodes, 5, vec![sx1, sx2]);
    let s_root = inner(&mut nodes, 2, vec![sc]);
    let dy1 = leaf(&mut nodes, 20, 0);
    let dy2 = leaf(&mut nodes, 22, 0);
    let dc0 = inner(&mut nodes, 5, vec![dy1, dy2]);
    let dz1 = leaf(&mut nodes, 21, 0);
    let dz2 = leaf(&mut nodes, 23, 0);
    let dc1 = inner(&mut nodes, 5, vec![dz1, dz2]);
    let d_root = inner(&mut nodes, 2, vec![dc0, dc1]);
    let store = NodeStore { nodes };
    let ls = labels(1);
    // src post order: x1, x2, c, root; dst: y1, y2, c0, z1, z2, c1, root
    // seed: x1 -> y1 (inside dc0), x2 -> z1 (inside dc1): dice(c, c0) ==
    // dice(c, c1) == 2/(3+3); accept both at threshold 1/3
    let seed = seeded(4, 7, &[(0, 0), (1, 3)]);
    let cfg = MatcherConfig {
        size_threshold: 1000,
        sim_threshold_num: 1,
        sim_threshold_den: 3,
        use_slice: true,
    };
    let r = GreedyBottomUpMatcher::<VecStore>::matchh(&store, &ls, s_root, d_root, seed, cfg);
    let got = pairs_of(&r.mappings);
    assert!(got.contains(&(2, 2)), "parent pairs with the earlier candidate: {got:?}");
    assert!(!got.contains(&(2, 5)));
}

#[test]
fn dice_exactly_at_threshold_is_accepted() {
    // dice = 2·1/(2+2) = 1/2, exactly the default threshold
    let mut nodes = Vec::new();
    let sx = leaf(&mut nodes, 20, 0);
    let sa = inner(&mut nodes, 5, vec![sx]);
    let s_root = inner(&mut nodes, 2, vec![sa]);
    let dy = leaf(&mut nodes, 20, 0);
    let db = inner(&mut nodes, 5, vec![dy]);
    let d_root = inner(&mut nodes, 3, vec![db]);
    let store = NodeStore { nodes };
    let ls = labels(1);
    let seed = seeded(3, 3, &[(0, 0)]);
    let r = GreedyBottomUpMatcher::<VecStore>::matchh(
        &store,
        &ls,
        s_root,
        d_root,
        seed,
        MatcherConfig::default(),
    );
    let got = pairs_of(&r.mappings);
    assert!(got.contains(&(1, 1)), "{got:?}");
}

#[test]
fn identical_trees_with_full_seed_keep_every_pair() {
    let mut nodes = Vec::new();
    let c = leaf(&mut nodes, 2, 0);
    let d = leaf(&mut nodes, 3, 0);
    let b = inner(&mut nodes, 1, vec![c, d]);
    let e = leaf(&mut nodes, 4, 0);
    let s_root = inner(&mut nodes, 0, vec![b, e]);
    let c2 = leaf(&mut nodes, 2, 0);
    let d2 = leaf(&mut nodes, 3, 0);
    let b2 = inner(&mut nodes, 1, vec![c2, d2]);
    let e2 = leaf(&mut nodes, 4, 0);
    let d_root = inner(&mut nodes, 0, vec![b2, e2]);
    let store = NodeStore { nodes };
    let ls = labels(1);
    let all: Vec<(usize, usize)> = (0..5).map(|i| (i, i)).collect();
    let seed = seeded(5, 5, &all);
    let r = GreedyBottomUpMatcher::<VecStore>::matchh(
        &store,
        &ls,
        s_root,
        d_root,
        seed,
        MatcherConfig::default(),
    );
    assert_eq!(pairs_of(&r.mappings), all);
}

#[test]
fn unrelated_trees_link_only_the_roots() {
    let mut nodes = Vec::new();
    let sx = leaf(&mut nodes, 30, 0);
    let sy = leaf(&mut nodes, 31, 0);
    let s_root = inner(&mut nodes, 32, vec![sx, sy]);
    let da = leaf(&mut nodes, 40, 1);
    let db = leaf(&mut nodes, 41, 1);
    let d_root = inner(&mut nodes, 42, vec![da, db]);
    let store = NodeStore { nodes };
    let ls = labels(2);
    let r = GreedyBottomUpMatcher::<VecStore>::matchh(
        &store,
        &ls,
        s_root,
        d_root,
        VecStore::default(),
        MatcherConfig::default(),
    );
    assert_eq!(pairs_of(&r.mappings), vec![(2, 2)]);
}

fn flat_tree(nodes: &mut Vec<TreeNode>, n_leaves: usize) -> usize {
    let mut children = Vec::new();
    for _ in 0..n_leaves {
        children.push(leaf(nodes, 50, 0));
    }
    inner(nodes, 60, children)
}

#[test]
fn last_chance_skipped_when_one_side_reaches_the_threshold() {
    // sizes 999 and 1000 with matching root types: the roots link, the
    // last-chance pass does not fire, descendants stay as seeded
    let mut nodes = Vec::new();
    let s_root = flat_tree(&mut nodes, 998);
    let d_root = flat_tree(&mut nodes, 999);
    let store = NodeStore { nodes };
    let ls = labels(1);
    let seed = seeded(999, 1000, &[(0, 0)]);
    let r = GreedyBottomUpMatcher::<VecStore>::matchh(
        &store,
        &ls,
        s_root,
        d_root,
        seed,
        MatcherConfig::default(),
    );
    assert_eq!(pairs_of(&r.mappings), vec![(0, 0), (998, 999)]);
}

#[test]
fn last_chance_skipped_at_exactly_the_threshold() {
    // both sides hold exactly SIZE_THRESHOLD nodes: strict `<` skips
    let mut nodes = Vec::new();
    let s_root = flat_tree(&mut nodes, 999);
    let d_root = flat_tree(&mut nodes, 999);
    let store = NodeStore { nodes };
    let ls = labels(1);
    let seed = seeded(1000, 1000, &[(0, 0)]);
    let r = GreedyBottomUpMatcher::<VecStore>::matchh(
        &store,
        &ls,
        s_root,
        d_root,
        seed,
        MatcherConfig::default(),
    );
    assert_eq!(pairs_of(&r.mappings), vec![(0, 0), (999, 999)]);
}

#[test]
fn one_node_of_threshold_slack_lets_the_pass_fire() {
    // two three-node trees: at a threshold of exactly 3 the last-chance
    // pass is skipped, one more lets it map the remaining leaves
    let mut nodes = Vec::new();
    let s_root = flat_tree(&mut nodes, 2);
    let d_root = flat_tree(&mut nodes, 2);
    let store = NodeStore { nodes };
    let ls = labels(1);
    let seed = seeded(3, 3, &[(0, 0)]);
    let cfg = MatcherConfig { size_threshold: 3, ..MatcherConfig::default() };
    let r = GreedyBottomUpMatcher::<VecStore>::matchh(&store, &ls, s_root, d_root, seed, cfg);
    assert_eq!(pairs_of(&r.mappings), vec![(0, 0), (2, 2)]);
    let seed = seeded(3, 3, &[(0, 0)]);
    let cfg = MatcherConfig { size_threshold: 4, ..MatcherConfig::default() };
    let r = GreedyBottomUpMatcher::<VecStore>::matchh(&store, &ls, s_root, d_root, seed, cfg);
    assert_eq!(pairs_of(&r.mappings), vec![(0, 0), (1, 1), (2, 2)]);
}

#[test]
fn rerunning_on_own_output_is_idempotent() {
    let (store, s_root, d_root) = two_children_case();
    let ls = labels(1);
    let seed = seeded(5, 5, &[(0, 0), (2, 2)]);
    let first = GreedyBottomUpMatcher::<VecStore>::matchh(
        &store,
        &ls,
        s_root,
        d_root,
        seed,
        MatcherConfig::default(),
    );
    let first_pairs = pairs_of(&first.mappings);
    let second = GreedyBottomUpMatcher::<VecStore>::matchh(
        &store,
        &ls,
        s_root,
        d_root,
        first.mappings,
        MatcherConfig::default(),
    );
    assert_eq!(pairs_of(&second.mappings), first_pairs);
}

#[test]
fn hash_backed_store_gives_the_same_mapping() {
    let (store, s_root, d_root) = two_children_case();
    let ls = labels(1);
    let dense_seed = seeded(5, 5, &[(0, 0), (2, 2)]);
    let dense = GreedyBottomUpMatcher::<VecStore>::matchh(
        &store,
        &ls,
        s_root,
        d_root,
        dense_seed,
        MatcherConfig::default(),
    );
    let mut hash_seed = HashStore::default();
    hash_seed.link(0, 0);
    hash_seed.link(2, 2);
    let hashed = GreedyBottomUpMatcher::<HashStore>::matchh(
        &store,
        &ls,
        s_root,
        d_root,
        hash_seed,
        MatcherConfig::default(),
    );
    let mut hash_pairs: Vec<(usize, usize)> = hashed
        .mappings
        .iter()
        .into_iter()
        .filter(|&(s, d)| hashed.mappings.has(s, d))
        .collect();
    hash_pairs.sort();
    assert_eq!(hash_pairs, pairs_of(&dense.mappings));
}

#[test]
fn slicing_and_rebuilding_agree() {
    let (store, s_root, d_root) = two_children_case();
    let ls = labels(1);
    let with_slice = GreedyBottomUpMatcher::<VecStore>::matchh(
        &store,
        &ls,
        s_root,
        d_root,
        seeded(5, 5, &[(0, 0), (2, 2)]),
        MatcherConfig::default(),
    );
    let cfg = MatcherConfig { use_slice: false, ..MatcherConfig::default() };
    let rebuilt = GreedyBottomUpMatcher::<VecStore>::matchh(
        &store,
        &ls,
        s_root,
        d_root,
        seeded(5, 5, &[(0, 0), (2, 2)]),
        cfg,
    );
    assert_eq!(pairs_of(&with_slice.mappings), pairs_of(&rebuilt.mappings));
}

#[test]
fn labels_drive_the_rename_cost() {
    // identical shapes, one leaf's label changed: the optimal pass still
    // maps everything (rename is cheaper than delete plus insert)
    let mut nodes = Vec::new();
    let sx = leaf(&mut nodes, 20, 0);
    let sy = leaf(&mut nodes, 21, 1);
    let s_root = inner(&mut nodes, 2, vec![sx, sy]);
    let dx = leaf(&mut nodes, 20, 0);
    let dy = leaf(&mut nodes, 21, 2);
    let d_root = inner(&mut nodes, 2, vec![dx, dy]);
    let store = NodeStore { nodes };
    let ls = labels(3);
    let r = GreedyBottomUpMatcher::<VecStore>::matchh(
        &store,
        &ls,
        s_root,
        d_root,
        VecStore::default(),
        MatcherConfig::default(),
    );
    assert_eq!(pairs_of(&r.mappings), vec![(0, 0), (1, 1), (2, 2)]);
}
