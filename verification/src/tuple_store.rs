//! A mapping store split into a write phase and a read phase: links are
//! collected as plain pairs, then frozen into two pair lists sorted by
//! either side for reading.

use crate::mapping_store::MappingStoreBuilding;
use vstd::multiset::Multiset;
use vstd::prelude::*;

verus! {

broadcast use vstd::seq_lib::group_to_multiset_ensures;

/// Pairs in ascending order of their first component.
pub open spec fn sorted_by_first(s: Seq<(usize, usize)>) -> bool {
    forall|k: int, l: int| 0 <= k < l < s.len() ==> (#[trigger] s[k]).0 <= (#[trigger] s[l]).0
}

/// The pairs carrying the given key, in their order of appearance.
pub open spec fn with_key(s: Seq<(usize, usize)>, key: usize) -> Seq<(usize, usize)> {
    s.filter(|p: (usize, usize)| p.0 == key)
}

/// A sequence with no matching element filters to nothing.
proof fn lemma_filter_none(s: Seq<(usize, usize)>, pred: spec_fn((usize, usize)) -> bool)
    requires
        forall|i: int| 0 <= i < s.len() ==> !pred(#[trigger] s[i]),
    ensures
        s.filter(pred) == Seq::<(usize, usize)>::empty(),
    decreases s.len(),
{
    reveal_with_fuel(Seq::filter, 3);
    if s.len() != 0 {
        assert(forall|i: int| 0 <= i < s.drop_last().len() ==> s.drop_last()[i] == s[i]);
        lemma_filter_none(s.drop_last(), pred);
    }
}

/// Write-phase store: a bag of pairs with the declared capacities.
pub struct MultiTupleStoreW {
    pub left: usize,
    pub right: usize,
    pub src: Vec<(usize, usize)>,
}

impl MultiTupleStoreW {
    pub fn default() -> (r: Self)
        ensures
            r.left == 0,
            r.right == 0,
            r.src@.len() == 0,
    {
        MultiTupleStoreW { left: 0, right: 0, src: Vec::new() }
    }
}

impl MappingStoreBuilding for MultiTupleStoreW {
    open spec fn b_valid_src(&self, s: usize) -> bool {
        true
    }

    open spec fn b_valid_dst(&self, d: usize) -> bool {
        true
    }

    open spec fn b_topit_rel(pre: Self, post: Self, left: usize, right: usize) -> bool {
        &&& post.left == left
        &&& post.right == right
        &&& post.src@ == pre.src@
    }

    /// Appends blindly; duplicates are the caller's concern.
    open spec fn b_link_rel(pre: Self, post: Self, s: usize, d: usize) -> bool {
        &&& post.left == pre.left
        &&& post.right == pre.right
        &&& post.src@ == pre.src@.push((s, d))
    }

    /// Swap-removes the first matching pair, if any; duplicates are the
    /// caller's concern.
    open spec fn b_cut_rel(pre: Self, post: Self, s: usize, d: usize) -> bool {
        &&& post.left == pre.left
        &&& post.right == pre.right
        &&& match pre.src@.index_of_first((s, d)) {
            Some(i) => post.src@ == pre.src@.update(i, pre.src@.last()).drop_last(),
            None => post.src@ == pre.src@,
        }
    }

    fn topit(&mut self, left: usize, right: usize) {
        self.left = left;
        self.right = right;
    }

    fn link(&mut self, src: usize, dst: usize) {
        self.src.push((src, dst));
    }

    fn cut(&mut self, src: usize, dst: usize) {
        let n = self.src.len();
        let mut i: usize = 0;
        while i < n
            invariant
                i <= n,
                n == self.src@.len(),
                self.src@ == old(self).src@,
                self.left == old(self).left,
                self.right == old(self).right,
                forall|j: int| 0 <= j < i ==> self.src@[j] != (src, dst),
            decreases n - i,
        {
            let p = self.src[i];
            if p.0 == src && p.1 == dst {
                proof {
                    self.src@.index_of_first_ensures((src, dst));
                    assert(self.src@[i as int] == (src, dst));
                    assert(self.src@.contains((src, dst)));
                    assert(self.src@.index_of_first((src, dst)) == Some(i as int));
                }
                self.src.swap_remove(i);
                return ;
            }
            i += 1;
        }
        proof {
            self.src@.index_of_first_ensures((src, dst));
            if self.src@.contains((src, dst)) {
                let j = choose|j: int| 0 <= j < self.src@.len() && self.src@[j] == (src, dst);
                assert(false);
            }
        }
    }
}

/// Read-phase store: the same pairs, sorted by source on one side and by
/// destination on the other.
pub struct MultiTupleStoreR {
    pub left: usize,
    pub right: usize,
    pub src: Vec<(usize, usize)>,
    pub dst: Vec<(usize, usize)>,
}

impl MultiTupleStoreR {
    /// Freeze a write-phase store: `src` holds its pairs sorted by source
    /// index, `dst` the swapped pairs sorted by destination index; pairs
    /// sharing a key keep their order of insertion.
    pub fn from(value: MultiTupleStoreW) -> (r: Self)
        ensures
            r.left == value.left,
            r.right == value.right,
            r.src@.to_multiset() == value.src@.to_multiset(),
            sorted_by_first(r.src@),
            forall|key: usize| #[trigger] with_key(r.src@, key) == with_key(value.src@, key),
            r.dst@.to_multiset() == value.src@.map_values(|p: (usize, usize)| (p.1, p.0)).to_multiset(),
            sorted_by_first(r.dst@),
            forall|key: usize| #[trigger]
                with_key(r.dst@, key) == with_key(
                    value.src@.map_values(|p: (usize, usize)| (p.1, p.0)),
                    key,
                ),
    {
        let n = value.src.len();
        let mut dst: Vec<(usize, usize)> = Vec::new();
        let mut i: usize = 0;
        while i < n
            invariant
                i <= n,
                n == value.src@.len(),
                dst@.len() == i,
                forall|j: int| 0 <= j < i ==> (#[trigger] dst@[j]) == (value.src@[j].1, value.src@[j].0),
            decreases n - i,
        {
            let p = value.src[i];
            dst.push((p.1, p.0));
            i += 1;
        }
        proof {
            assert(dst@ =~= value.src@.map_values(|p: (usize, usize)| (p.1, p.0)));
        }
        let dst = sort_pairs_by_first(dst);
        let src = sort_pairs_by_first(value.src);
        MultiTupleStoreR { left: value.left, right: value.right, src, dst }
    }
}

/// Selection sort on the first components; keeps exactly the same pairs,
/// and pairs sharing a key keep their relative order (the first index of
/// the minimal key is taken each round).
fn sort_pairs_by_first(v: Vec<(usize, usize)>) -> (r: Vec<(usize, usize)>)
    ensures
        r@.to_multiset() == v@.to_multiset(),
        sorted_by_first(r@),
        forall|key: usize| #[trigger] with_key(r@, key) == with_key(v@, key),
{
    let mut rest = v;
    let mut out: Vec<(usize, usize)> = Vec::new();
    proof {
        reveal_with_fuel(Seq::filter, 3);
        assert forall|key: usize| #[trigger]
            with_key(out@, key) + with_key(rest@, key) == with_key(v@, key) by {
            assert(with_key(out@, key) =~= Seq::<(usize, usize)>::empty());
            assert(Seq::<(usize, usize)>::empty() + with_key(rest@, key) =~= with_key(
                rest@,
                key,
            ));
        }
    }
    while rest.len() > 0
        invariant
            out@.to_multiset().add(rest@.to_multiset()) == v@.to_multiset(),
            sorted_by_first(out@),
            forall|k: int, l: int|
                0 <= k < out@.len() && 0 <= l < rest@.len() ==> (#[trigger] out@[k]).0 <= (
                #[trigger] rest@[l]).0,
            forall|key: usize| #[trigger]
                with_key(out@, key) + with_key(rest@, key) == with_key(v@, key),
        decreases rest@.len(),
    {
        let m = rest.len();
        let mut imin: usize = 0;
        let mut j: usize = 1;
        while j < m
            invariant
                imin < j,
                j <= m,
                m == rest@.len(),
                m > 0,
                forall|k: int| 0 <= k < j ==> rest@[imin as int].0 <= (#[trigger] rest@[k]).0,
                forall|k: int|
                    0 <= k < imin ==> (#[trigger] rest@[k]).0 > rest@[imin as int].0,
            decreases m - j,
        {
            if rest[j].0 < rest[imin].0 {
                imin = j;
            }
            j += 1;
        }
        let ghost pre_out = out@;
        let ghost pre_rest = rest@;
        let x = rest.remove(imin);
        out.push(x);
        proof {
            let pa = pre_rest.subrange(0, imin as int);
            let pb = pre_rest.subrange(imin as int, pre_rest.len() as int);
            let pb1 = pre_rest.subrange(imin as int + 1, pre_rest.len() as int);
            assert(pre_rest =~= pa + pb);
            assert(rest@ =~= pa + pb1);
            assert(pb =~= seq![x] + pb1);
            assert(out@ =~= pre_out + seq![x]);
            assert forall|key: usize| #[trigger]
                with_key(out@, key) + with_key(rest@, key) == with_key(v@, key) by {
                reveal_with_fuel(Seq::filter, 3);
                let pred = |p: (usize, usize)| p.0 == key;
                Seq::filter_distributes_over_add(pa, pb, pred);
                Seq::filter_distributes_over_add(seq![x], pb1, pred);
                Seq::filter_distributes_over_add(pa, pb1, pred);
                Seq::filter_distributes_over_add(pre_out, seq![x], pred);
                assert(seq![x].drop_last() =~= Seq::<(usize, usize)>::empty());
                if key == x.0 {
                    assert(seq![x].filter(pred) =~= seq![x]);
                    assert forall|i: int| 0 <= i < pa.len() implies !pred(#[trigger] pa[i]) by {
                        assert(pa[i] == pre_rest[i]);
                        assert(pre_rest[i].0 > x.0);
                    }
                    lemma_filter_none(pa, pred);
                    assert(with_key(out@, key) + with_key(rest@, key) =~= with_key(
                        pre_out,
                        key,
                    ) + with_key(pre_rest, key));
                } else {
                    assert(seq![x].filter(pred) =~= Seq::<(usize, usize)>::empty());
                    assert(with_key(out@, key) + with_key(rest@, key) =~= with_key(
                        pre_out,
                        key,
                    ) + with_key(pre_rest, key));
                }
            }
            assert(pre_rest.remove(imin as int).to_multiset() =~= pre_rest.to_multiset().remove(
                x,
            ));
            assert(pre_out.push(x).to_multiset() =~= pre_out.to_multiset().insert(x));
            assert(pre_rest.to_multiset().count(x) > 0);
            assert(out@.to_multiset().add(rest@.to_multiset()) =~= v@.to_multiset());
            assert forall|k: int, l: int|
                0 <= k < out@.len() && 0 <= l < rest@.len() implies (#[trigger] out@[k]).0 <= (
            #[trigger] rest@[l]).0 by {
                if k < pre_out.len() {
                    if l < imin {
                        assert(rest@[l] == pre_rest[l]);
                    } else {
                        assert(rest@[l] == pre_rest[l + 1]);
                    }
                } else {
                    assert(out@[k] == x);
                    if l < imin {
                        assert(rest@[l] == pre_rest[l]);
                        assert(x.0 <= pre_rest[l].0);
                    } else {
                        assert(rest@[l] == pre_rest[l + 1]);
                        assert(x.0 <= pre_rest[l + 1].0);
                    }
                }
            }
        }
    }
    proof {
        assert(rest@.to_multiset() =~= Multiset::<(usize, usize)>::empty());
        assert(out@.to_multiset() =~= v@.to_multiset());
        assert forall|key: usize| #[trigger] with_key(out@, key) == with_key(v@, key) by {
            reveal_with_fuel(Seq::filter, 3);
            assert(with_key(rest@, key) =~= Seq::<(usize, usize)>::empty());
            assert(with_key(out@, key) + with_key(rest@, key) =~= with_key(out@, key));
        }
    }
    out
}

} // verus!
