//! Plain in-process models of the external node store and label store.
//!
//! A node store is a vector of nodes indexed by node id; every child id is
//! strictly smaller than its parent's id, as in a store filled bottom-up.
//! The post-order linearisation of a subtree, and the leftmost-leaf index
//! of each of its nodes, are defined here as recursive specifications; the
//! decompressed view is verified against them.

use vstd::prelude::*;

verus! {

/// One syntax node: its type, its label, and its children in order.
pub struct TreeNode {
    pub ty: u32,
    pub label: usize,
    pub children: Vec<usize>,
}

/// The node store: node ids are indices into `nodes`.
pub struct NodeStore {
    pub nodes: Vec<TreeNode>,
}

/// The label store: label ids are indices into `labels`.
pub struct LabelStore {
    pub labels: Vec<Vec<u8>>,
}

/// Every child id is strictly below its parent's id, so each id roots a
/// well-founded tree.
pub open spec fn store_wf(s: &NodeStore) -> bool {
    forall|i: int, j: int|
        0 <= i < s.nodes@.len() && 0 <= j < s.nodes@[i].children@.len()
            ==> (#[trigger] s.nodes@[i].children@[j]) < i
}

/// Every label id a node carries resolves in the label store.
pub open spec fn labels_ok(s: &NodeStore, ls: &LabelStore) -> bool {
    forall|i: int|
        0 <= i < s.nodes@.len() ==> (#[trigger] s.nodes@[i].label) < ls.labels@.len()
}

impl NodeStore {
    pub fn len(&self) -> (r: usize)
        ensures
            r == self.nodes@.len(),
    {
        self.nodes.len()
    }

    /// Look a node up; ids below `len` always resolve.
    pub fn resolve(&self, id: usize) -> (r: &TreeNode)
        requires
            id < self.nodes@.len(),
        ensures
            r == &self.nodes@[id as int],
    {
        &self.nodes[id]
    }

    /// Whether the store satisfies the bottom-up id discipline.
    pub fn check_wf(&self) -> (r: bool)
        ensures
            r == store_wf(self),
    {
        let n = self.nodes.len();
        let mut i: usize = 0;
        while i < n
            invariant
                i <= n,
                n == self.nodes@.len(),
                forall|a: int, b: int|
                    0 <= a < i && 0 <= b < self.nodes@[a].children@.len()
                        ==> (#[trigger] self.nodes@[a].children@[b]) < a,
            decreases n - i,
        {
            let node = &self.nodes[i];
            let m = node.children.len();
            let mut j: usize = 0;
            while j < m
                invariant
                    j <= m,
                    i < n,
                    n == self.nodes@.len(),
                    m == self.nodes@[i as int].children@.len(),
                    node == &self.nodes@[i as int],
                    forall|b: int|
                        0 <= b < j ==> (#[trigger] self.nodes@[i as int].children@[b]) < i,
                decreases m - j,
            {
                if node.children[j] >= i {
                    return false;
                }
                j += 1;
            }
            i += 1;
        }
        true
    }
}

impl LabelStore {
    pub fn resolve(&self, id: usize) -> (r: &Vec<u8>)
        requires
            id < self.labels@.len(),
        ensures
            r == &self.labels@[id as int],
    {
        &self.labels[id]
    }
}

/// Post-order ids of the subtree rooted at `id`: children's linearisations
/// left to right, then the root.
pub open spec fn po_seq(s: &NodeStore, id: int) -> Seq<usize>
    decreases id, 1int, 0int,
        when 0 <= id < s.nodes@.len() && store_wf(s)
{
    po_forest(s, s.nodes@[id].children@, id) + seq![id as usize]
}

/// Post-order ids of a row of sibling subtrees, every root below `b`.
pub open spec fn po_forest(s: &NodeStore, cs: Seq<usize>, b: int) -> Seq<usize>
    decreases b, 0int, cs.len(),
        when store_wf(s) && 0 <= b < s.nodes@.len() && (forall|k: int|
            0 <= k < cs.len() ==> (#[trigger] cs[k]) < b)
{
    if cs.len() == 0 {
        Seq::empty()
    } else {
        po_forest(s, cs.drop_last(), b) + po_seq(s, cs.last() as int)
    }
}

/// Leftmost-leaf index of each node of the subtree, relative to the
/// subtree's own range; the root's is always `0`.
pub open spec fn po_lld(s: &NodeStore, id: int) -> Seq<int>
    decreases id, 1int, 0int,
        when 0 <= id < s.nodes@.len() && store_wf(s)
{
    po_lld_forest(s, s.nodes@[id].children@, id) + seq![0int]
}

/// Leftmost-leaf indices of a row of sibling subtrees, each block shifted
/// to where the sibling starts.
pub open spec fn po_lld_forest(s: &NodeStore, cs: Seq<usize>, b: int) -> Seq<int>
    decreases b, 0int, cs.len(),
        when store_wf(s) && 0 <= b < s.nodes@.len() && (forall|k: int|
            0 <= k < cs.len() ==> (#[trigger] cs[k]) < b)
{
    if cs.len() == 0 {
        Seq::empty()
    } else {
        let pre = po_lld_forest(s, cs.drop_last(), b);
        pre + po_lld(s, cs.last() as int).map_values(|v: int| v + pre.len())
    }
}

/// Number of nodes of the subtree rooted at `id`.
pub open spec fn subtree_size(s: &NodeStore, id: int) -> nat {
    po_seq(s, id).len()
}

/// Basic shape of the post-order linearisation: ids and leftmost-leaf
/// indices line up, the root comes last with leftmost leaf `0`, every
/// leftmost-leaf index points left of its node, and ranges nest.
pub proof fn lemma_po_facts(s: &NodeStore, id: int)
    requires
        store_wf(s),
        0 <= id < s.nodes@.len(),
    ensures
        po_seq(s, id).len() == po_lld(s, id).len(),
        po_seq(s, id).len() >= 1,
        po_seq(s, id).last() == id as usize,
        po_lld(s, id).last() == 0,
        forall|j: int|
            0 <= j < po_seq(s, id).len() ==> ((#[trigger] po_seq(s, id)[j]) as int) <= id,
        forall|j: int| 0 <= j < po_lld(s, id).len() ==> 0 <= #[trigger] po_lld(s, id)[j] <= j,
        forall|j: int, k: int|
            #![trigger po_lld(s, id)[j], po_lld(s, id)[k]]
            0 <= j < po_lld(s, id).len() && po_lld(s, id)[j] <= k <= j ==> po_lld(s, id)[k]
                >= po_lld(s, id)[j],
    decreases id, 1int, 0int,
{
    lemma_po_forest_facts(s, s.nodes@[id].children@, id);
    let ps = po_seq(s, id);
    let pl = po_lld(s, id);
    let fs = po_forest(s, s.nodes@[id].children@, id);
    let fl = po_lld_forest(s, s.nodes@[id].children@, id);
    assert(ps.len() == fs.len() + 1);
    assert(pl.len() == fl.len() + 1);
    assert(pl.last() == 0);
    assert forall|j: int, k: int|
        #![trigger pl[j], pl[k]]
        0 <= j < pl.len() && pl[j] <= k <= j implies pl[k] >= pl[j] by {
        if j < fl.len() {
            assert(fl[j] == pl[j]);
            assert(fl[k] == pl[k]);
        }
    }
}

/// A row of siblings linearises to nothing exactly when it is empty.
pub proof fn lemma_po_forest_empty(s: &NodeStore, cs: Seq<usize>, b: int)
    requires
        store_wf(s),
        0 <= b < s.nodes@.len(),
        forall|t: int| 0 <= t < cs.len() ==> (#[trigger] cs[t]) < b,
    ensures
        (po_forest(s, cs, b).len() == 0) <==> (cs.len() == 0),
{
    if cs.len() != 0 {
        lemma_po_facts(s, cs.last() as int);
    }
}

/// Extending a sibling prefix by one appends exactly that sibling's block.
pub proof fn lemma_forest_take_step(s: &NodeStore, cs: Seq<usize>, b: int, k: int)
    requires
        store_wf(s),
        0 <= b < s.nodes@.len(),
        forall|t: int| 0 <= t < cs.len() ==> (#[trigger] cs[t]) < b,
        0 <= k < cs.len(),
    ensures
        po_forest(s, cs.take(k + 1), b) == po_forest(s, cs.take(k), b) + po_seq(s, cs[k] as int),
        po_lld_forest(s, cs.take(k + 1), b) == po_lld_forest(s, cs.take(k), b) + po_lld(
            s,
            cs[k] as int,
        ).map_values(|v: int| v + po_lld_forest(s, cs.take(k), b).len()),
{
    assert(cs.take(k + 1).drop_last() =~= cs.take(k));
    assert(cs.take(k + 1).last() == cs[k]);
}

/// A sibling prefix together with the next sibling's block never exceeds
/// the whole row.
pub proof fn lemma_forest_take_len_bound(s: &NodeStore, cs: Seq<usize>, b: int, k: int)
    requires
        store_wf(s),
        0 <= b < s.nodes@.len(),
        forall|t: int| 0 <= t < cs.len() ==> (#[trigger] cs[t]) < b,
        0 <= k < cs.len(),
    ensures
        po_forest(s, cs.take(k), b).len() + po_seq(s, cs[k] as int).len() <= po_forest(
            s,
            cs,
            b,
        ).len(),
    decreases cs.len(),
{
    if k + 1 == cs.len() {
        lemma_forest_take_step(s, cs, b, k);
        assert(cs.take(k + 1) =~= cs);
    } else {
        lemma_forest_take_len_bound(s, cs.drop_last(), b, k);
        assert(cs.drop_last().take(k) =~= cs.take(k));
        assert(cs.drop_last()[k] == cs[k]);
    }
}

/// Longer sibling prefixes linearise to no fewer nodes.
pub proof fn lemma_forest_take_mono(s: &NodeStore, cs: Seq<usize>, b: int, k1: int, k2: int)
    requires
        store_wf(s),
        0 <= b < s.nodes@.len(),
        forall|t: int| 0 <= t < cs.len() ==> (#[trigger] cs[t]) < b,
        0 <= k1 <= k2 <= cs.len(),
    ensures
        po_forest(s, cs.take(k1), b).len() <= po_forest(s, cs.take(k2), b).len(),
    decreases k2 - k1,
{
    if k1 < k2 {
        lemma_forest_take_mono(s, cs, b, k1, k2 - 1);
        lemma_forest_take_step(s, cs, b, k2 - 1);
        lemma_po_facts(s, cs[k2 - 1] as int);
    }
}

/// Past any sibling-prefix boundary, the leftmost-leaf indices stay at or
/// above that boundary: a later sibling's subtree never reaches back into
/// an earlier one.
pub proof fn lemma_forest_boundary_lower(s: &NodeStore, cs: Seq<usize>, b: int, k: int)
    requires
        store_wf(s),
        0 <= b < s.nodes@.len(),
        forall|t: int| 0 <= t < cs.len() ==> (#[trigger] cs[t]) < b,
        0 <= k <= cs.len(),
    ensures
        forall|q: int|
            po_forest(s, cs.take(k), b).len() <= q < po_lld_forest(s, cs, b).len()
                ==> #[trigger] po_lld_forest(s, cs, b)[q] >= po_forest(s, cs.take(k), b).len(),
    decreases cs.len(),
{
    lemma_po_forest_facts(s, cs, b);
    if cs.len() != 0 {
        let bnd = po_forest(s, cs.take(k), b).len() as int;
        let prel = po_lld_forest(s, cs.drop_last(), b);
        let pl = po_lld(s, cs.last() as int);
        lemma_po_forest_facts(s, cs.drop_last(), b);
        lemma_po_facts(s, cs.last() as int);
        let fl = po_lld_forest(s, cs, b);
        assert(fl == prel + pl.map_values(|v: int| v + prel.len()));
        if k == cs.len() {
            assert(cs.take(k) =~= cs);
            lemma_po_forest_facts(s, cs.take(k), b);
            assert(po_forest(s, cs.take(k), b).len() == fl.len());
        } else {
            assert(cs.drop_last().take(k) =~= cs.take(k));
            lemma_forest_boundary_lower(s, cs.drop_last(), b, k);
            lemma_forest_take_mono(s, cs.drop_last(), b, k, cs.drop_last().len() as int);
            assert(cs.drop_last().take(cs.drop_last().len() as int) =~= cs.drop_last());
            assert forall|q: int|
                bnd <= q < fl.len() implies #[trigger] fl[q] >= bnd by {
                if q < prel.len() {
                    assert(fl[q] == prel[q]);
                } else {
                    assert(fl[q] == pl[q - prel.len()] + prel.len());
                    assert(pl[q - prel.len()] >= 0);
                    assert(prel.len() >= bnd);
                }
            }
        }
    }
}

/// The node at position `j` of a post-order linearisation roots the block
/// `[lld(j), j]` of that linearisation: the block is itself the node's own
/// post-order linearisation, and the leftmost-leaf indices over the block,
/// re-based to the block's start, are the node's own.
pub proof fn lemma_po_subtree(s: &NodeStore, id: int, j: int)
    requires
        store_wf(s),
        s.nodes@.len() <= usize::MAX,
        0 <= id < s.nodes@.len(),
        0 <= j < po_seq(s, id).len(),
    ensures
        ({
            let ps = po_seq(s, id);
            let pl = po_lld(s, id);
            let c = ps[j] as int;
            &&& 0 <= c < s.nodes@.len()
            &&& po_seq(s, c) == ps.subrange(pl[j], j + 1)
            &&& po_lld(s, c) == pl.subrange(pl[j], j + 1).map_values(|v: int| v - pl[j])
        }),
    decreases id, 1int, 0int,
{
    lemma_po_facts(s, id);
    lemma_po_forest_facts(s, s.nodes@[id].children@, id);
    let ps = po_seq(s, id);
    let pl = po_lld(s, id);
    let c = ps[j] as int;
    if j == ps.len() - 1 {
        assert(c == id);
        assert(pl[j] == 0);
        assert(po_seq(s, c) =~= ps.subrange(0, j + 1));
        assert(po_lld(s, c) =~= pl.subrange(0, j + 1).map_values(|v: int| v - 0));
    } else {
        let fs = po_forest(s, s.nodes@[id].children@, id);
        let fl = po_lld_forest(s, s.nodes@[id].children@, id);
        lemma_po_forest_subtree(s, s.nodes@[id].children@, id, j);
        assert(ps[j] == fs[j]);
        assert(pl[j] == fl[j]);
        assert(0 <= fl[j] <= j);
        assert(ps.subrange(pl[j], j + 1) =~= fs.subrange(fl[j], j + 1));
        assert(pl.subrange(pl[j], j + 1) =~= fl.subrange(fl[j], j + 1));
        assert(pl.subrange(pl[j], j + 1).map_values(|v: int| v - pl[j]) =~= fl.subrange(
            fl[j],
            j + 1,
        ).map_values(|v: int| v - fl[j]));
    }
}

/// The block decomposition, for a row of sibling subtrees.
proof fn lemma_po_forest_subtree(s: &NodeStore, cs: Seq<usize>, b: int, j: int)
    requires
        store_wf(s),
        s.nodes@.len() <= usize::MAX,
        0 <= b < s.nodes@.len(),
        forall|k: int| 0 <= k < cs.len() ==> (#[trigger] cs[k]) < b,
        0 <= j < po_forest(s, cs, b).len(),
    ensures
        ({
            let fs = po_forest(s, cs, b);
            let fl = po_lld_forest(s, cs, b);
            let c = fs[j] as int;
            &&& 0 <= c < s.nodes@.len()
            &&& 0 <= fl[j] <= j
            &&& po_seq(s, c) == fs.subrange(fl[j], j + 1)
            &&& po_lld(s, c) == fl.subrange(fl[j], j + 1).map_values(|v: int| v - fl[j])
        }),
    decreases b, 0int, cs.len(),
{
    lemma_po_forest_facts(s, cs, b);
    let fs = po_forest(s, cs, b);
    let fl = po_lld_forest(s, cs, b);
    let pre = po_forest(s, cs.drop_last(), b);
    let prel = po_lld_forest(s, cs.drop_last(), b);
    lemma_po_forest_facts(s, cs.drop_last(), b);
    let ps = po_seq(s, cs.last() as int);
    let pl = po_lld(s, cs.last() as int);
    lemma_po_facts(s, cs.last() as int);
    if j < pre.len() {
        lemma_po_forest_subtree(s, cs.drop_last(), b, j);
        let c = pre[j] as int;
        assert(fs[j] == pre[j]);
        assert(fl[j] == prel[j]);
        assert(fs.subrange(fl[j], j + 1) =~= pre.subrange(prel[j], j + 1));
        assert(fl.subrange(fl[j], j + 1) =~= prel.subrange(prel[j], j + 1));
        assert(fl.subrange(fl[j], j + 1).map_values(|v: int| v - fl[j]) =~= prel.subrange(
            prel[j],
            j + 1,
        ).map_values(|v: int| v - prel[j]));
    } else {
        let jj = j - pre.len();
        lemma_po_subtree(s, cs.last() as int, jj);
        let c = ps[jj] as int;
        assert(fs[j] == ps[jj]);
        assert(fl[j] == pl[jj] + prel.len());
        assert(prel.len() == pre.len());
        assert(fs.subrange(fl[j], j + 1) =~= ps.subrange(pl[jj], jj + 1));
        assert(po_lld(s, c) == pl.subrange(pl[jj], jj + 1).map_values(|v: int| v - pl[jj]));
        let lhs = fl.subrange(fl[j], j + 1).map_values(|v: int| v - fl[j]);
        let rhs = pl.subrange(pl[jj], jj + 1).map_values(|v: int| v - pl[jj]);
        assert forall|k: int| 0 <= k < lhs.len() implies #[trigger] lhs[k] == rhs[k] by {
            assert(fl[fl[j] + k] == pl[pl[jj] + k] + prel.len());
        }
        assert(lhs =~= rhs);
    }
}

/// The same shape facts for a row of sibling subtrees: blocks are laid out
/// consecutively and each block keeps its own nesting.
pub proof fn lemma_po_forest_facts(s: &NodeStore, cs: Seq<usize>, b: int)
    requires
        store_wf(s),
        0 <= b < s.nodes@.len(),
        forall|k: int| 0 <= k < cs.len() ==> (#[trigger] cs[k]) < b,
    ensures
        po_forest(s, cs, b).len() == po_lld_forest(s, cs, b).len(),
        forall|j: int|
            0 <= j < po_forest(s, cs, b).len() ==> ((#[trigger] po_forest(s, cs, b)[j]) as int) < b,
        forall|j: int|
            0 <= j < po_lld_forest(s, cs, b).len() ==> 0 <= #[trigger] po_lld_forest(s, cs, b)[j]
                <= j,
        forall|j: int, k: int|
            #![trigger po_lld_forest(s, cs, b)[j], po_lld_forest(s, cs, b)[k]]
            0 <= j < po_lld_forest(s, cs, b).len() && po_lld_forest(s, cs, b)[j] <= k <= j
                ==> po_lld_forest(s, cs, b)[k] >= po_lld_forest(s, cs, b)[j],
    decreases b, 0int, cs.len(),
{
    if cs.len() != 0 {
        lemma_po_forest_facts(s, cs.drop_last(), b);
        lemma_po_facts(s, cs.last() as int);
        let pre = po_forest(s, cs.drop_last(), b);
        let prel = po_lld_forest(s, cs.drop_last(), b);
        let ps = po_seq(s, cs.last() as int);
        let pl = po_lld(s, cs.last() as int);
        let cur = po_forest(s, cs, b);
        let curl = po_lld_forest(s, cs, b);
        assert(cur == pre + ps);
        assert(curl == prel + pl.map_values(|v: int| v + prel.len()));
        assert(pl.map_values(|v: int| v + prel.len()).len() == pl.len());
        assert forall|j: int| 0 <= j < curl.len() implies 0 <= #[trigger] curl[j] <= j by {
            if j < prel.len() {
                assert(curl[j] == prel[j]);
            } else {
                assert(curl[j] == pl[j - prel.len()] + prel.len());
            }
        }
        assert forall|j: int, k: int|
            #![trigger curl[j], curl[k]]
            0 <= j < curl.len() && curl[j] <= k <= j implies curl[k] >= curl[j] by {
            if j < prel.len() {
                assert(curl[j] == prel[j]);
                assert(curl[k] == prel[k]);
            } else {
                let jj = j - prel.len();
                assert(curl[j] == pl[jj] + prel.len());
                assert(0 <= pl[jj] <= jj);
                if k >= prel.len() {
                    let kk = k - prel.len();
                    assert(curl[k] == pl[kk] + prel.len());
                    assert(pl[kk] >= pl[jj]);
                }
            }
        }
        assert forall|j: int|
            0 <= j < cur.len() implies ((#[trigger] cur[j]) as int) < b by {
            if j < pre.len() {
                assert(cur[j] == pre[j]);
            } else {
                assert(cur[j] == ps[j - pre.len()]);
                assert(ps[j - pre.len()] as int <= cs.last() as int);
            }
        }
    }
}

} // verus!
