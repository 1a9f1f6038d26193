//! Decompressed post-order view of a tree.
//!
//! The view is four parallel arrays: the external id of each node, its
//! parent's index, its leftmost-leaf-descendant index, and the list of
//! Zhang–Shasha key roots.  In post-order the root sits at index `n - 1`
//! and the descendants of a node `v` occupy exactly `[lld(v), v]`.
//! Construction is verified against the recursive post-order
//! specifications of the node-store module, which is what makes the slice
//! equivalence below a theorem rather than a convention.

use crate::tree_store::{
    lemma_po_facts, lemma_po_subtree, po_lld, po_seq, store_wf, subtree_size, NodeStore,
};
use vstd::prelude::*;

verus! {

/// A key root is the highest node sharing its leftmost leaf: no node after
/// it has the same `lld` value.
pub open spec fn is_key_root(lld: Seq<usize>, i: int) -> bool {
    forall|j: int| i < j < lld.len() ==> (#[trigger] lld[j]) != lld[i]
}

/// The ascending list of key roots among the first `i` indices.
pub open spec fn key_roots_upto(lld: Seq<usize>, i: int) -> Seq<usize>
    decreases i,
{
    if i <= 0 {
        Seq::empty()
    } else {
        key_roots_upto(lld, i - 1) + (if is_key_root(lld, i - 1) {
            seq![((i - 1) as usize)]
        } else {
            Seq::empty()
        })
    }
}

/// Key-root entries are positions below `i`, listed in ascending order.
pub proof fn lemma_key_roots_bounds(lld: Seq<usize>, i: int)
    requires
        0 <= i <= lld.len(),
        lld.len() <= usize::MAX,
    ensures
        forall|t: int|
            0 <= t < key_roots_upto(lld, i).len() ==> ((#[trigger] key_roots_upto(lld, i)[t]) as int)
                < i,
        forall|t1: int, t2: int|
            0 <= t1 < t2 < key_roots_upto(lld, i).len() ==> key_roots_upto(lld, i)[t1]
                < key_roots_upto(lld, i)[t2],
    decreases i,
{
    if i > 0 {
        lemma_key_roots_bounds(lld, i - 1);
        let prev = key_roots_upto(lld, i - 1);
        let cur = key_roots_upto(lld, i);
        assert(forall|t: int| 0 <= t < prev.len() ==> cur[t] == prev[t]);
        if is_key_root(lld, i - 1) {
            assert(cur[cur.len() - 1] == (i - 1) as usize);
        }
    }
}

/// Post-order linearisation of one tree: external ids, parents, leftmost
/// leaves and key roots, all index-valued.
pub struct DecompressedTree {
    pub original: Vec<usize>,
    pub parent: Vec<Option<usize>>,
    pub lld: Vec<usize>,
    pub kr: Vec<usize>,
}

impl DecompressedTree {
    /// Structural soundness: the root is last and covers everything, each
    /// node's range `[lld(v), v]` contains the ranges of the nodes inside
    /// it, each node's parent is exactly the first node after it whose
    /// range covers it, and the key roots are derived from the leftmost
    /// leaves.
    pub open spec fn wf(&self) -> bool {
        let n = self.original@.len() as int;
        &&& n >= 1
        &&& n <= usize::MAX
        &&& self.parent@.len() == n
        &&& self.lld@.len() == n
        &&& forall|i: int| 0 <= i < n ==> (#[trigger] self.lld@[i]) <= i
        &&& self.lld@[n - 1] == 0
        &&& forall|i: int, k: int|
            #![trigger self.lld@[i], self.lld@[k]]
            0 <= i < n && self.lld@[i] <= k <= i ==> self.lld@[k] >= self.lld@[i]
        &&& self.parent@[n - 1] is None
        &&& forall|i: int| 0 <= i < n - 1 ==> (#[trigger] self.parent@[i]) is Some
        &&& forall|i: int|
            0 <= i < n - 1 ==> i < ((#[trigger] self.parent@[i])->Some_0 as int) < n
                && self.lld@[self.parent@[i]->Some_0 as int] <= self.lld@[i]
        &&& forall|i: int, k: int|
            #![trigger self.parent@[i], self.lld@[k]]
            0 <= i < n - 1 && i < k < (self.parent@[i]->Some_0 as int) ==> self.lld@[k] > i
        &&& self.kr@ == key_roots_upto(self.lld@, n)
    }

    /// The view linearises the subtree of `root` in the given store.
    pub open spec fn models(&self, s: &NodeStore, root: usize) -> bool {
        &&& self.original@ == po_seq(s, root as int)
        &&& self.lld@.len() == po_lld(s, root as int).len()
        &&& forall|j: int|
            0 <= j < self.lld@.len() ==> ((#[trigger] self.lld@[j]) as int) == po_lld(
                s,
                root as int,
            )[j]
    }

    pub fn len(&self) -> (r: usize)
        ensures
            r == self.original@.len(),
    {
        self.original.len()
    }

    /// Post-order index of the root.
    pub fn root(&self) -> (r: usize)
        requires
            self.wf(),
        ensures
            r == self.original@.len() - 1,
    {
        self.original.len() - 1
    }

    /// External id of the node at post-order index `i`.
    pub fn original(&self, i: usize) -> (r: usize)
        requires
            i < self.original@.len(),
        ensures
            r == self.original@[i as int],
    {
        self.original[i]
    }

    /// Post-order index of the parent, or `None` for the root.
    pub fn parent(&self, i: usize) -> (r: Option<usize>)
        requires
            i < self.parent@.len(),
        ensures
            r == self.parent@[i as int],
    {
        self.parent[i]
    }

    /// Leftmost-leaf-descendant index of `i`; equals `i` exactly on leaves.
    pub fn first_descendant(&self, i: usize) -> (r: usize)
        requires
            i < self.lld@.len(),
        ensures
            r == self.lld@[i as int],
    {
        self.lld[i]
    }

    /// The closed range `[lld(i), i]` that the subtree of `i` occupies.
    pub fn descendants_range(&self, i: usize) -> (r: (usize, usize))
        requires
            self.wf(),
            i < self.lld@.len(),
        ensures
            r.0 == self.lld@[i as int],
            r.1 == i,
            r.0 <= r.1,
    {
        (self.lld[i], i)
    }

    /// Number of nodes in the subtree of `i`, the node itself included.
    pub fn descendants_count(&self, i: usize) -> (r: usize)
        requires
            self.wf(),
            i < self.lld@.len(),
        ensures
            r == i - self.lld@[i as int] + 1,
    {
        i - self.lld[i] + 1
    }

    /// Every post-order index, in post order.
    pub fn iter_df_post(&self) -> (r: Vec<usize>)
        ensures
            r@.len() == self.original@.len(),
            forall|j: int| 0 <= j < r@.len() ==> r@[j] == j,
    {
        let n = self.original.len();
        let mut r: Vec<usize> = Vec::new();
        let mut i: usize = 0;
        while i < n
            invariant
                i <= n,
                r@.len() == i,
                forall|j: int| 0 <= j < r@.len() ==> r@[j] == j,
            decreases n - i,
        {
            r.push(i);
            i += 1;
        }
        r
    }

    /// The key roots, ascending.
    pub fn iter_kr(&self) -> (r: Vec<usize>)
        ensures
            r@ == self.kr@,
    {
        let mut r: Vec<usize> = Vec::new();
        let n = self.kr.len();
        let mut i: usize = 0;
        while i < n
            invariant
                i <= n,
                n == self.kr@.len(),
                r@ == self.kr@.subrange(0, i as int),
            decreases n - i,
        {
            r.push(self.kr[i]);
            i += 1;
        }
        proof {
            assert(r@ =~= self.kr@);
        }
        r
    }
}

impl DecompressedTree {
    /// A self-contained view of the subtree of `v`: its descendants
    /// `[lld(v), v]` re-indexed to `[0, size - 1]`, with leftmost leaves
    /// re-based, parents re-derived and key roots recomputed.
    pub fn slice_po(&self, v: usize) -> (t: DecompressedTree)
        requires
            self.wf(),
            v < self.original@.len(),
        ensures
            t.wf(),
            t.original@ == self.original@.subrange(
                self.lld@[v as int] as int,
                v as int + 1,
            ),
            t.original@.len() == v - self.lld@[v as int] + 1,
            forall|j: int|
                0 <= j < t.original@.len() ==> ((#[trigger] t.lld@[j]) as int) == self.lld@[
                    self.lld@[v as int] + j] - self.lld@[v as int],
    {
        let lo = self.lld[v];
        let size = v - lo + 1;
        let mut original: Vec<usize> = Vec::new();
        let mut lld: Vec<usize> = Vec::new();
        let mut j: usize = 0;
        while j < size
            invariant
                self.wf(),
                v < self.original@.len(),
                lo == self.lld@[v as int],
                size == v - lo + 1,
                j <= size,
                original@.len() == j,
                lld@.len() == j,
                forall|x: int|
                    0 <= x < j ==> (#[trigger] original@[x]) == self.original@[lo + x],
                forall|x: int|
                    0 <= x < j ==> ((#[trigger] lld@[x]) as int) == self.lld@[lo + x] - lo,
            decreases size - j,
        {
            original.push(self.original[lo + j]);
            proof {
                assert(self.lld@[v as int] <= lo + j <= v);
            }
            lld.push(self.lld[lo + j] - lo);
            j += 1;
        }
        proof {
            assert(original@ =~= self.original@.subrange(lo as int, v as int + 1));
            assert forall|i: int| 0 <= i < size implies (#[trigger] lld@[i]) <= i by {
                assert(self.lld@[v as int] <= lo + i <= v);
            }
            assert forall|i: int, k: int|
                #![trigger lld@[i], lld@[k]]
                0 <= i < size && lld@[i] <= k <= i implies lld@[k] >= lld@[i] by {
                assert(self.lld@[lo + i] <= lo + k <= lo + i);
                assert(self.lld@[lo + k] >= self.lld@[lo + i]);
            }
            assert((lld@[size - 1] as int) == self.lld@[v as int] - lo);
        }
        let parent = parent_from_lld(&lld);
        let kr = compute_kr(&lld);
        DecompressedTree { original, parent, lld, kr }
    }
}

/// Re-derives each node's parent as the first node after it whose range
/// covers it; in a post-order arena that is exactly the parent.
fn parent_from_lld(lld: &Vec<usize>) -> (r: Vec<Option<usize>>)
    requires
        lld@.len() >= 1,
        lld@.len() <= usize::MAX,
        forall|i: int| 0 <= i < lld@.len() ==> (#[trigger] lld@[i]) <= i,
        lld@[lld@.len() - 1] == 0,
        forall|i: int, k: int|
            #![trigger lld@[i], lld@[k]]
            0 <= i < lld@.len() && lld@[i] <= k <= i ==> lld@[k] >= lld@[i],
    ensures
        r@.len() == lld@.len(),
        r@[lld@.len() - 1] is None,
        forall|i: int| 0 <= i < lld@.len() - 1 ==> (#[trigger] r@[i]) is Some,
        forall|i: int|
            0 <= i < lld@.len() - 1 ==> i < ((#[trigger] r@[i])->Some_0 as int) < lld@.len()
                && lld@[r@[i]->Some_0 as int] <= lld@[i],
        forall|i: int, k: int|
            #![trigger r@[i], lld@[k]]
            0 <= i < lld@.len() - 1 && i < k < ((r@[i])->Some_0 as int) ==> lld@[k] > i,
{
    let n = lld.len();
    let mut r: Vec<Option<usize>> = Vec::new();
    let mut i: usize = 0;
    while i < n - 1
        invariant
            i <= n - 1,
            n == lld@.len(),
            n >= 1,
            forall|x: int| 0 <= x < n ==> (#[trigger] lld@[x]) <= x,
            lld@[n - 1] == 0,
            forall|x: int, k: int|
                #![trigger lld@[x], lld@[k]]
                0 <= x < n && lld@[x] <= k <= x ==> lld@[k] >= lld@[x],
            r@.len() == i,
            forall|x: int| 0 <= x < i ==> (#[trigger] r@[x]) is Some,
            forall|x: int|
                0 <= x < i ==> x < ((#[trigger] r@[x])->Some_0 as int) < n && lld@[r@[x]->Some_0
                    as int] <= lld@[x],
            forall|x: int, k: int|
                #![trigger r@[x], lld@[k]]
                0 <= x < i && x < k < ((r@[x])->Some_0 as int) ==> lld@[k] > x,
        decreases n - 1 - i,
    {
        let mut p: usize = i + 1;
        while p < n - 1 && lld[p] > i
            invariant
                i < p <= n - 1,
                n == lld@.len(),
                forall|k: int| i < k < p ==> (#[trigger] lld@[k]) > i,
            decreases n - 1 - p,
        {
            p += 1;
        }
        proof {
            assert(lld@[p as int] <= i as int);
            assert(lld@[p as int] <= i < p);
            assert(lld@[i as int] >= lld@[p as int]);
        }
        r.push(Some(p));
        i += 1;
    }
    r.push(None);
    r
}

/// Every position `v` of a modeling view roots the block `[lld(v), v]`,
/// which carries exactly the post-order linearisation and re-based
/// leftmost leaves of the node `original(v)` taken on its own.
pub proof fn lemma_slice_po_models(s: &NodeStore, t: &DecompressedTree, root: usize, v: int)
    requires
        store_wf(s),
        s.nodes@.len() <= usize::MAX,
        root < s.nodes@.len(),
        t.wf(),
        t.models(s, root),
        0 <= v < t.original@.len(),
    ensures
        ({
            let c = t.original@[v] as int;
            &&& 0 <= c < s.nodes@.len()
            &&& t.original@.subrange(t.lld@[v] as int, v + 1) == po_seq(s, c)
            &&& po_lld(s, c).len() == v - t.lld@[v] + 1
            &&& forall|j: int|
                0 <= j <= v - t.lld@[v] ==> (t.lld@[t.lld@[v] + j] - t.lld@[v]) == #[trigger]
                    po_lld(s, c)[j]
        }),
{
    lemma_po_facts(s, root as int);
    lemma_po_subtree(s, root as int, v);
    let ps = po_seq(s, root as int);
    let pl = po_lld(s, root as int);
    let c = t.original@[v] as int;
    assert(t.original@ == ps);
    assert((t.lld@[v] as int) == pl[v]);
    assert(t.original@.subrange(t.lld@[v] as int, v + 1) =~= ps.subrange(pl[v], v + 1));
    let sub = pl.subrange(pl[v], v + 1).map_values(|x: int| x - pl[v]);
    assert(po_lld(s, c) == sub);
    assert forall|j: int|
        0 <= j <= v - t.lld@[v] implies (t.lld@[t.lld@[v] + j] - t.lld@[v]) == #[trigger] po_lld(
        s,
        c,
    )[j] by {
        assert((t.lld@[pl[v] + j] as int) == pl[pl[v] + j]);
        assert(sub[j] == pl[pl[v] + j] - pl[v]);
    }
}

/// A node is a leaf exactly when it is its own leftmost leaf.
pub proof fn lemma_leaf_iff_lld_self(s: &NodeStore, t: &DecompressedTree, root: usize, v: int)
    requires
        store_wf(s),
        s.nodes@.len() <= usize::MAX,
        (root as int) < s.nodes@.len(),
        t.wf(),
        t.models(s, root),
        0 <= v < t.original@.len(),
    ensures
        ((t.lld@[v] as int) == v) <==> (s.nodes@[t.original@[v] as int].children@.len() == 0),
{
    lemma_slice_po_models(s, t, root, v);
    let c = t.original@[v] as int;
    assert(po_seq(s, c).len() == v - t.lld@[v] + 1);
    crate::tree_store::lemma_po_forest_empty(s, s.nodes@[c].children@, c);
}

/// The slice of `v` and a fresh decompression of `original(v)` agree on
/// all three of the linearised ids, the leftmost leaves and the key roots.
pub proof fn lemma_slice_equivalence(
    s: &NodeStore,
    t: &DecompressedTree,
    root: usize,
    v: int,
    sliced: &DecompressedTree,
    fresh: &DecompressedTree,
)
    requires
        store_wf(s),
        s.nodes@.len() <= usize::MAX,
        root < s.nodes@.len(),
        t.wf(),
        t.models(s, root),
        0 <= v < t.original@.len(),
        sliced.wf(),
        sliced.original@ == t.original@.subrange(t.lld@[v] as int, v + 1),
        sliced.original@.len() == v - t.lld@[v] + 1,
        forall|j: int|
            0 <= j < sliced.original@.len() ==> ((#[trigger] sliced.lld@[j]) as int) == t.lld@[
                t.lld@[v] + j] - t.lld@[v],
        fresh.wf(),
        fresh.models(s, t.original@[v]),
    ensures
        sliced.original@ == fresh.original@,
        sliced.lld@ == fresh.lld@,
        sliced.kr@ == fresh.kr@,
{
    lemma_slice_po_models(s, t, root, v);
    let c = t.original@[v] as int;
    assert(fresh.original@ == po_seq(s, c));
    assert(sliced.original@ =~= fresh.original@);
    assert forall|j: int| 0 <= j < sliced.lld@.len() implies #[trigger] sliced.lld@[j]
        == fresh.lld@[j] by {
        assert((sliced.lld@[j] as int) == po_lld(s, c)[j]);
        assert((fresh.lld@[j] as int) == po_lld(s, c)[j]);
    }
    assert(sliced.lld@ =~= fresh.lld@);
    assert(sliced.kr@ == key_roots_upto(sliced.lld@, sliced.lld@.len() as int));
    assert(fresh.kr@ == key_roots_upto(fresh.lld@, fresh.lld@.len() as int));
}

/// Builds the decompressed view of the subtree of `root`.
pub fn decompress(s: &NodeStore, root: usize) -> (t: DecompressedTree)
    requires
        store_wf(s),
        root < s.nodes@.len(),
        subtree_size(s, root as int) <= usize::MAX,
    ensures
        t.wf(),
        t.models(s, root),
{
    let _sn: usize = s.len();
    let mut original: Vec<usize> = Vec::new();
    let mut parent: Vec<Option<usize>> = Vec::new();
    let mut lld: Vec<usize> = Vec::new();
    let _me = build_rec(s, root, &mut original, &mut parent, &mut lld);
    proof {
        lemma_po_facts(s, root as int);
        assert(original@ =~= po_seq(s, root as int));
    }
    let kr = compute_kr(&lld);
    let t = DecompressedTree { original, parent, lld, kr };
    proof {
        let n = t.original@.len() as int;
        let pl = po_lld(s, root as int);
        assert forall|j: int| 0 <= j < n implies ((#[trigger] t.lld@[j]) as int) == pl[j] by {
            assert((t.lld@[0 + j] as int) == pl[j] + 0);
        }
        assert(t.lld@[n - 1] as int == pl[n - 1]);
        assert forall|i: int, k: int|
            #![trigger t.lld@[i], t.lld@[k]]
            0 <= i < n && t.lld@[i] <= k <= i implies t.lld@[k] >= t.lld@[i] by {
            assert(t.lld@[i] as int == pl[i]);
            assert(t.lld@[k] as int == pl[k]);
        }
    }
    t
}

/// Recursively appends the subtree of `id` to the three arrays, returning
/// the post-order index of `id` itself.
fn build_rec(
    s: &NodeStore,
    id: usize,
    original: &mut Vec<usize>,
    parent: &mut Vec<Option<usize>>,
    lld: &mut Vec<usize>,
) -> (me: usize)
    requires
        store_wf(s),
        s.nodes@.len() <= usize::MAX,
        id < s.nodes@.len(),
        old(original)@.len() == old(parent)@.len(),
        old(original)@.len() == old(lld)@.len(),
        old(original)@.len() + subtree_size(s, id as int) <= usize::MAX,
    ensures
        ({
            let start = old(original)@.len() as int;
            let size = subtree_size(s, id as int) as int;
            &&& final(original)@.len() == start + size
            &&& final(parent)@.len() == start + size
            &&& final(lld)@.len() == start + size
            &&& me == start + size - 1
            &&& final(original)@.subrange(0, start) == old(original)@
            &&& final(parent)@.subrange(0, start) == old(parent)@
            &&& final(lld)@.subrange(0, start) == old(lld)@
            &&& final(original)@.subrange(start, start + size) == po_seq(s, id as int)
            &&& forall|j: int|
                0 <= j < size ==> ((#[trigger] final(lld)@[start + j]) as int) == po_lld(
                    s,
                    id as int,
                )[j] + start
            &&& final(parent)@[me as int] is None
            &&& forall|j: int|
                start <= j < me ==> (#[trigger] final(parent)@[j]) is Some
            &&& forall|j: int|
                start <= j < me ==> j < ((#[trigger] final(parent)@[j])->Some_0 as int) <= me
                    && final(lld)@[final(parent)@[j]->Some_0 as int] <= final(lld)@[j]
            &&& forall|j: int, k2: int|
                #![trigger final(parent)@[j], final(lld)@[k2]]
                start <= j < me && j < k2 < ((final(parent)@[j])->Some_0 as int)
                    ==> final(lld)@[k2] > j
        }),
    decreases id,
{
    proof {
        lemma_po_facts(s, id as int);
        crate::tree_store::lemma_po_forest_facts(s, s.nodes@[id as int].children@, id as int);
    }
    let ghost start = original@.len() as int;
    let start_e = original.len();
    let node = s.resolve(id);
    let m = node.children.len();
    let ghost cs = s.nodes@[id as int].children@;
    let mut child_roots: Vec<usize> = Vec::new();
    let mut k: usize = 0;
    proof {
        assert(cs.take(0) =~= Seq::<usize>::empty());
        crate::tree_store::lemma_po_forest_facts(s, cs.take(0), id as int);
    }
    while k < m
        invariant
            store_wf(s),
            s.nodes@.len() <= usize::MAX,
            id < s.nodes@.len(),
            k <= m,
            node == &s.nodes@[id as int],
            cs == s.nodes@[id as int].children@,
            m == cs.len(),
            start == start_e as int,
            start + subtree_size(s, id as int) <= usize::MAX,
            original@.len() == parent@.len(),
            original@.len() == lld@.len(),
            original@.len() == start + crate::tree_store::po_forest(s, cs.take(k as int), id as int).len(),
            original@.subrange(0, start) == old(original)@,
            parent@.subrange(0, start) == old(parent)@,
            lld@.subrange(0, start) == old(lld)@,
            original@.subrange(start, original@.len() as int) == crate::tree_store::po_forest(
                s,
                cs.take(k as int),
                id as int,
            ),
            forall|j: int|
                0 <= j < original@.len() - start ==> ((#[trigger] lld@[start + j]) as int)
                    == crate::tree_store::po_lld_forest(s, cs.take(k as int), id as int)[j] + start,
            child_roots@.len() == k,
            forall|t: int|
                0 <= t < k ==> start <= (#[trigger] child_roots@[t]) < original@.len(),
            forall|t1: int, t2: int|
                0 <= t1 < t2 < k ==> child_roots@[t1] < child_roots@[t2],
            forall|j: int|
                start <= j < original@.len() ==> ((#[trigger] parent@[j]) is None
                    <==> child_roots@.contains(j as usize)),
            forall|j: int|
                start <= j < original@.len() && parent@[j] is Some ==> j < ((
                #[trigger] parent@[j])->Some_0 as int) < original@.len() && lld@[parent@[j]->Some_0
                    as int] <= lld@[j],
            forall|t: int|
                0 <= t < k ==> (#[trigger] child_roots@[t]) as int == start
                    + crate::tree_store::po_forest(s, cs.take(t + 1), id as int).len() - 1,
            forall|j: int, k2: int|
                #![trigger parent@[j], lld@[k2]]
                start <= j < original@.len() && parent@[j] is Some && j < k2 < ((
                parent@[j])->Some_0 as int) ==> lld@[k2] > j,
        decreases m - k,
    {
        let c = node.children[k];
        proof {
            lemma_po_facts(s, c as int);
            crate::tree_store::lemma_forest_take_step(s, cs, id as int, k as int);
            crate::tree_store::lemma_forest_take_len_bound(s, cs, id as int, k as int);
        }
        let ghost pre_len = original@.len() as int;
        let ghost pre_original = original@;
        let ghost pre_parent = parent@;
        let ghost pre_lld = lld@;
        let ghost pre_child_roots = child_roots@;
        let r = build_rec(s, c, original, parent, lld);
        child_roots.push(r);
        k += 1;
        proof {
            let sz = subtree_size(s, c as int) as int;
            assert forall|t: int| 0 <= t < cs.take(k as int).len() implies (#[trigger] cs.take(
                k as int,
            )[t]) < id as int by {
                assert(cs.take(k as int)[t] == cs[t]);
            }
            assert forall|t: int|
                0 <= t < cs.take(k as int - 1).len() implies (#[trigger] cs.take(
                k as int - 1,
            )[t]) < id as int by {
                assert(cs.take(k as int - 1)[t] == cs[t]);
            }
            crate::tree_store::lemma_po_forest_facts(s, cs.take(k as int), id as int);
            crate::tree_store::lemma_po_forest_facts(s, cs.take(k as int - 1), id as int);
            assert(original@.subrange(0, pre_len) == pre_original);
            assert(parent@.subrange(0, pre_len) == pre_parent);
            assert(lld@.subrange(0, pre_len) == pre_lld);
            assert forall|j: int| 0 <= j < pre_len implies #[trigger] original@[j]
                == pre_original[j] by {
                assert(original@.subrange(0, pre_len)[j] == original@[j]);
            }
            assert forall|j: int| 0 <= j < pre_len implies #[trigger] parent@[j]
                == pre_parent[j] by {
                assert(parent@.subrange(0, pre_len)[j] == parent@[j]);
            }
            assert forall|j: int| 0 <= j < pre_len implies #[trigger] lld@[j] == pre_lld[j] by {
                assert(lld@.subrange(0, pre_len)[j] == lld@[j]);
            }
            assert(original@.subrange(0, start) =~= old(original)@);
            assert(parent@.subrange(0, start) =~= old(parent)@);
            assert(lld@.subrange(0, start) =~= old(lld)@);
            let fs = crate::tree_store::po_forest(s, cs.take(k as int), id as int);
            let fsp = crate::tree_store::po_forest(s, cs.take(k as int - 1), id as int);
            let fl = crate::tree_store::po_lld_forest(s, cs.take(k as int), id as int);
            let flp = crate::tree_store::po_lld_forest(s, cs.take(k as int - 1), id as int);
            let ps = po_seq(s, c as int);
            let pl = po_lld(s, c as int);
            assert(fs == fsp + ps);
            assert(fl == flp + pl.map_values(|v: int| v + flp.len()));
            assert(flp.len() == fsp.len());
            assert(fsp.len() == pre_len - start);
            assert forall|j: int|
                0 <= j < original@.len() - start implies #[trigger] original@[start + j]
                == fs[j] by {
                if j < pre_len - start {
                    assert(original@[start + j] == pre_original[start + j]);
                    assert(pre_original.subrange(start, pre_len)[j] == pre_original[start + j]);
                    assert(fs[j] == fsp[j]);
                } else {
                    assert(original@.subrange(pre_len, pre_len + sz)[j - (pre_len - start)]
                        == original@[start + j]);
                    assert(fs[j] == ps[j - (pre_len - start)]);
                }
            }
            assert(original@.subrange(start, original@.len() as int) =~= fs);
            assert forall|j: int|
                0 <= j < original@.len() - start implies ((#[trigger] lld@[start + j]) as int)
                == fl[j] + start by {
                if j < pre_len - start {
                    assert(lld@[start + j] == pre_lld[start + j]);
                    assert(fl[j] == flp[j]);
                } else {
                    assert((lld@[pre_len + (j - (pre_len - start))] as int) == pl[j - (pre_len
                        - start)] + pre_len);
                    assert(fl[j] == pl[j - (pre_len - start)] + flp.len());
                }
            }
            assert forall|j: int|
                start <= j < original@.len() implies ((#[trigger] parent@[j]) is None
                <==> child_roots@.contains(j as usize)) by {
                if j < pre_len {
                    assert(parent@[j] == pre_parent[j]);
                    if pre_child_roots.contains(j as usize) {
                        let t = choose|t: int|
                            0 <= t < pre_child_roots.len() && pre_child_roots[t] == j as usize;
                        assert(child_roots@[t] == j as usize);
                    }
                    if child_roots@.contains(j as usize) {
                        let t = choose|t: int|
                            0 <= t < child_roots@.len() && child_roots@[t] == j as usize;
                        assert(t < pre_child_roots.len());
                        assert(pre_child_roots.contains(j as usize));
                    }
                } else {
                    if j == original@.len() - 1 {
                        assert(child_roots@[child_roots@.len() - 1] == r);
                        assert(child_roots@.contains(j as usize));
                    } else {
                        assert(parent@[j] is Some);
                        if child_roots@.contains(j as usize) {
                            let t = choose|t: int|
                                0 <= t < child_roots@.len() && child_roots@[t] == j as usize;
                            if t < pre_child_roots.len() {
                                assert(pre_child_roots.contains(pre_child_roots[t]));
                                assert(pre_child_roots[t] < pre_len);
                            }
                        }
                    }
                }
            }
            assert forall|j: int|
                start <= j < original@.len() && parent@[j] is Some implies j < ((
            #[trigger] parent@[j])->Some_0 as int) < original@.len() && lld@[parent@[j]->Some_0
                as int] <= lld@[j] by {
                if j < pre_len {
                    assert(parent@[j] == pre_parent[j]);
                    let p = parent@[j]->Some_0 as int;
                    assert(p < pre_len);
                    assert(lld@[p] == pre_lld[p]);
                    assert(lld@[j] == pre_lld[j]);
                }
            }
        }
    }
    proof {
        assert(cs.take(m as int) =~= cs);
    }
    let me = original.len();
    original.push(id);
    parent.push(None);
    lld.push(start_e);
    let n_roots = child_roots.len();
    let mut t: usize = 0;
    let ghost after_push_parent = parent@;
    while t < n_roots
        invariant
            t <= n_roots,
            n_roots == child_roots@.len(),
            me == original@.len() - 1,
            parent@.len() == original@.len(),
            lld@.len() == original@.len(),
            forall|t2: int|
                0 <= t2 < n_roots ==> start <= (#[trigger] child_roots@[t2]) < me as int,
            forall|t1: int, t2: int|
                0 <= t1 < t2 < n_roots ==> child_roots@[t1] < child_roots@[t2],
            forall|j: int|
                0 <= j < parent@.len() && !(exists|t2: int|
                    0 <= t2 < t && child_roots@[t2] == j as usize) ==> #[trigger] parent@[j]
                    == after_push_parent[j],
            forall|t2: int|
                0 <= t2 < t ==> #[trigger] parent@[child_roots@[t2] as int] == Some(me),
        decreases n_roots - t,
    {
        let rt = child_roots[t];
        parent[rt] = Some(me);
        t += 1;
    }
    proof {
        let size = subtree_size(s, id as int) as int;
        assert(original@.subrange(0, start) =~= old(original)@);
        assert(parent@.subrange(0, start) =~= old(parent)@);
        assert(lld@.subrange(0, start) =~= old(lld)@);
        assert(original@.subrange(start, start + size) =~= po_seq(s, id as int));
        let fl = crate::tree_store::po_lld_forest(s, cs, id as int);
        let pl = po_lld(s, id as int);
        assert forall|j: int|
            0 <= j < size implies ((#[trigger] lld@[start + j]) as int) == pl[j] + start by {
            if j < size - 1 {
                assert(pl[j] == fl[j]);
            } else {
                assert(pl[j] == 0);
            }
        }
        assert(parent@[me as int] == after_push_parent[me as int]);
        assert forall|j: int| start <= j < me implies (#[trigger] parent@[j]) is Some by {
            if child_roots@.contains(j as usize) {
                let t2 = choose|t2: int|
                    0 <= t2 < child_roots@.len() && child_roots@[t2] == j as usize;
                assert(parent@[child_roots@[t2] as int] == Some(me));
            } else {
                assert(parent@[j] == after_push_parent[j]);
            }
        }
        assert forall|j: int|
            start <= j < me implies j < ((#[trigger] parent@[j])->Some_0 as int) <= me && lld@[
            parent@[j]->Some_0 as int] <= lld@[j] by {
            if child_roots@.contains(j as usize) {
                let t2 = choose|t2: int|
                    0 <= t2 < child_roots@.len() && child_roots@[t2] == j as usize;
                assert(parent@[child_roots@[t2] as int] == Some(me));
                assert(lld@[me as int] == start_e);
                assert((lld@[start + (j - start)] as int) == pl[j - start] + start);
                assert(pl[j - start] >= 0);
            } else {
                assert(parent@[j] == after_push_parent[j]);
            }
        }
        assert forall|t: int| 0 <= t < cs.len() implies (#[trigger] cs[t]) < id as int by {
            assert(s.nodes@[id as int].children@[t] < id as int);
        }
        assert forall|j: int, k2: int|
            #![trigger parent@[j], lld@[k2]]
            start <= j < me && j < k2 < ((parent@[j])->Some_0 as int) implies lld@[k2] > j by {
            if child_roots@.contains(j as usize) {
                let t2 = choose|t2: int|
                    0 <= t2 < child_roots@.len() && child_roots@[t2] == j as usize;
                assert(parent@[child_roots@[t2] as int] == Some(me));
                crate::tree_store::lemma_forest_boundary_lower(s, cs, id as int, t2 + 1);
                let bnd = crate::tree_store::po_forest(s, cs.take(t2 + 1), id as int).len()
                    as int;
                assert(j == start + bnd - 1);
                let q = k2 - start;
                assert(bnd <= q < fl.len());
                assert(fl[q] >= bnd);
                assert((lld@[start + q] as int) == pl[q] + start);
                assert(pl[q] == fl[q]);
            } else {
                assert(parent@[j] == after_push_parent[j]);
            }
        }
    }
    me
}

/// Computes the ascending key-root list from the leftmost-leaf array.
fn compute_kr(lld: &Vec<usize>) -> (r: Vec<usize>)
    ensures
        r@ == key_roots_upto(lld@, lld@.len() as int),
{
    let n = lld.len();
    let mut r: Vec<usize> = Vec::new();
    let mut i: usize = 0;
    while i < n
        invariant
            i <= n,
            n == lld@.len(),
            r@ == key_roots_upto(lld@, i as int),
        decreases n - i,
    {
        let v = lld[i];
        let mut j: usize = i + 1;
        let mut kr = true;
        while j < n
            invariant
                i < j <= n || (j == i + 1 && i + 1 > n),
                i < n,
                n == lld@.len(),
                v == lld@[i as int],
                kr == (forall|l: int| i < l < j ==> (#[trigger] lld@[l]) != lld@[i as int]),
            decreases n - j,
        {
            if lld[j] == v {
                kr = false;
            }
            j += 1;
        }
        if kr {
            r.push(i);
        }
        i += 1;
    }
    r
}

} // verus!
