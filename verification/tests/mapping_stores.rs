use hyper_diff::mapping_store::{
    DisplayVecStore, HashStore, MappingStore, MonoMappingStore, VecStore,
};

#[test]
fn dense_link_uses_sentinel_encoding() {
    let mut m = VecStore::default();
    m.topit(4, 5);
    assert_eq!(m.capacity(), (5, 6));
    m.link(2, 3);
    // slot holds counterpart + 1; zero stays "unmapped"
    assert_eq!(m.src_to_dst[2], 4);
    assert_eq!(m.dst_to_src[3], 3);
    assert_eq!(m.src_to_dst[0], 0);
    assert!(m.has(2, 3));
    assert!(!m.has(2, 2));
    assert!(m.is_src(2));
    assert!(m.is_dst(3));
    assert!(!m.is_src(1));
    assert_eq!(m.len(), 1);
}

#[test]
fn dense_get_and_unchecked() {
    let mut m = VecStore::default();
    m.topit(3, 3);
    m.link(1, 2);
    assert_eq!(m.get_dst(1), Some(2));
    assert_eq!(m.get_src(2), Some(1));
    assert_eq!(m.get_dst(0), None);
    assert_eq!(m.get_src(0), None);
    // out-of-capacity indices read as unmapped rather than faulting
    assert_eq!(m.get_dst(17), None);
    assert_eq!(m.get_dst_unchecked(1), 2);
    assert_eq!(m.get_src_unchecked(2), 1);
}

#[test]
fn dense_link_overwrites_both_slots() {
    let mut m = VecStore::default();
    m.topit(4, 4);
    m.link(1, 1);
    m.link(1, 2);
    assert!(m.has(1, 2));
    assert!(!m.has(1, 1));
    // the stale backward slot still reads as a mapped destination
    assert!(m.is_dst(1));
    assert_eq!(m.get_dst(1), Some(2));
}

#[test]
fn dense_cut_clears_both_slots() {
    let mut m = VecStore::default();
    m.topit(4, 4);
    m.link(1, 2);
    m.cut(1, 2);
    assert!(!m.has(1, 2));
    assert!(!m.is_src(1));
    assert!(!m.is_dst(2));
    assert_eq!(m.len(), 0);
}

#[test]
fn dense_iter_ascending_pairs() {
    let mut m = VecStore::default();
    m.topit(5, 5);
    m.link(4, 0);
    m.link(0, 3);
    m.link(2, 2);
    assert_eq!(m._iter(), vec![(0, 3), (2, 2), (4, 0)]);
    assert_eq!(MonoMappingStore::iter(&m), vec![(0, 3), (2, 2), (4, 0)]);
}

#[test]
fn dense_link_if_both_unmapped_guard_is_inverted() {
    // The guard reads "is_src && is_dst": on genuinely unmapped inputs it
    // refuses and changes nothing.
    let mut m = VecStore::default();
    m.topit(4, 4);
    assert!(!m.link_if_both_unmapped(1, 2));
    assert!(!m.is_src(1));
    // with both sides already mapped it reports true and links
    m.link(1, 1);
    m.link(2, 2);
    assert!(m.link_if_both_unmapped(1, 2));
    assert!(m.has(1, 2));
}

#[test]
fn hash_store_mirrors_dense_reads() {
    let mut m = HashStore::default();
    m.topit(100, 100); // no-op for the hash variant
    m.link(2, 3);
    assert!(m.is_src(2));
    assert!(m.is_dst(3));
    assert_eq!(m.get_dst(2), Some(3));
    assert_eq!(m.get_src(3), Some(2));
    assert_eq!(m.get_dst_unchecked(2), 3);
    assert_eq!(m.len(), 1);
    m.cut(2, 3);
    assert!(!m.is_src(2));
    assert_eq!(m.len(), 0);
}

#[test]
fn hash_store_has_requires_both_directions_to_agree() {
    let mut m = HashStore::default();
    m.link(1, 1);
    m.link(2, 2);
    assert!(m.has(1, 1));
    assert!(m.has(2, 2));
    assert!(!m.has(1, 2));
    let mut d = VecStore::default();
    d.topit(3, 3);
    d.link(1, 1);
    d.link(2, 2);
    assert!(!d.has(1, 2));
}

#[test]
fn hash_store_iter_yields_every_entry() {
    let mut m = HashStore::default();
    m.link(5, 1);
    m.link(0, 9);
    m.link(3, 3);
    let mut pairs = m.iter();
    pairs.sort();
    assert_eq!(pairs, vec![(0, 9), (3, 3), (5, 1)]);
}

#[test]
fn hash_link_if_both_unmapped_guard_is_inverted() {
    let mut m = HashStore::default();
    assert!(!m.link_if_both_unmapped(1, 2));
    assert_eq!(m.len(), 0);
    m.link(1, 1);
    m.link(2, 2);
    assert!(m.link_if_both_unmapped(1, 2));
    assert_eq!(m.get_dst(1), Some(2));
}

#[test]
fn display_renders_pairs_in_order() {
    let mut m = VecStore::default();
    m.topit(3, 3);
    m.link(0, 2);
    m.link(2, 0);
    let d: DisplayVecStore = m.display();
    assert_eq!(d.render(), "(0,2)\n(2,0)\n");
}
