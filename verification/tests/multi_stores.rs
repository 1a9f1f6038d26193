use hyper_diff::mapping_store::{MappingStore, MappingStoreBuilding};
use hyper_diff::multi_store::{MultiMappingStore, MultiVecStore};
use hyper_diff::tuple_store::{MultiTupleStoreR, MultiTupleStoreW};

#[test]
fn multi_store_links_append_and_cut_removes_first() {
    let mut m = MultiVecStore::default();
    m.topit(1, 5);
    assert_eq!(m.capacity(), (2, 6));
    for k in 1..=5 {
        m.link(0, k);
    }
    assert_eq!(m.get_dsts(0), vec![1, 2, 3, 4, 5]);
    assert!(m.is_src(0));
    assert_eq!(m.len(), 5);
    m.cut(0, 3);
    assert_eq!(m.get_dsts(0), vec![1, 2, 4, 5]);
    m.cut(0, 1);
    m.cut(0, 2);
    m.cut(0, 4);
    m.cut(0, 5);
    assert_eq!(m.get_dsts(0), Vec::<usize>::new());
    assert!(!m.is_src(0));
    assert_eq!(m.len(), 0);
}

#[test]
fn multi_store_keeps_duplicates() {
    let mut m = MultiVecStore::default();
    m.topit(2, 2);
    m.link(0, 1);
    m.link(0, 1);
    assert_eq!(m.get_dsts(0), vec![1, 1]);
    assert_eq!(m.get_srcs(1), vec![0, 0]);
    assert!(m.has(0, 1));
    m.cut(0, 1);
    assert_eq!(m.get_dsts(0), vec![1]);
    assert!(m.is_src(0));
}

#[test]
fn multi_store_enumeration_and_uniqueness() {
    let mut m = MultiVecStore::default();
    m.topit(5, 5);
    m.link(1, 0);
    m.link(3, 0);
    m.link(3, 2);
    assert_eq!(m.all_mapped_srcs(), vec![1, 3]);
    assert_eq!(m.all_mapped_dsts(), vec![0, 2]);
    assert!(m.is_src_unique(1));
    assert!(!m.is_src_unique(3));
    assert!(!m.is_dst_unique(0));
    assert!(m.is_dst_unique(2));
    assert!(!m.has(1, 2));
    assert!(m.has(3, 2));
}

#[test]
fn tuple_store_write_then_freeze_sorted() {
    let mut w = MultiTupleStoreW::default();
    w.topit(10, 20);
    w.link(5, 1);
    w.link(0, 9);
    w.link(5, 0);
    w.link(2, 4);
    w.cut(5, 1);
    let r = MultiTupleStoreR::from(w);
    assert_eq!(r.left, 10);
    assert_eq!(r.right, 20);
    assert_eq!(r.src, vec![(0, 9), (2, 4), (5, 0)]);
    assert_eq!(r.dst, vec![(0, 5), (4, 2), (9, 0)]);
}

#[test]
fn tuple_store_cut_ignores_missing_pair() {
    let mut w = MultiTupleStoreW::default();
    w.link(1, 2);
    w.cut(9, 9);
    let r = MultiTupleStoreR::from(w);
    assert_eq!(r.src, vec![(1, 2)]);
}
