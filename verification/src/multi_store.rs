//! Multi-valued mapping store: each side holds a small vector of
//! counterparts.  `link` appends and never deduplicates; `cut` removes the
//! first matching entry and collapses a slot that becomes empty.
//!
//! The small vectors are `tinyvec::TinyVec` values, kept inline until they
//! outgrow their array; the store only ever reads them back as slices.

use crate::mapping_store::MappingStore;
use vstd::prelude::*;

verus! {

/// A small vector of indices, inline until it outgrows two entries.  The
/// `tinyvec::TinyVec` inside is opaque to the verifier; its contents are
/// only visible through `tv_contents`.
#[verifier::external_body]
pub struct SmallIndexVec {
    inner: tinyvec::TinyVec<[usize; 2]>,
}

/// The elements a small vector holds, in order.
pub uninterp spec fn tv_contents(v: SmallIndexVec) -> Seq<usize>;

/// Relies on tinyvec::TinyVec::new: the new vector is empty.
#[verifier::external_body]
fn tv_new() -> (r: SmallIndexVec)
    ensures
        tv_contents(r) == Seq::<usize>::empty(),
{
    SmallIndexVec { inner: tinyvec::TinyVec::new() }
}

/// Relies on tinyvec::TinyVec::push: appends the value at the end.
#[verifier::external_body]
fn tv_push(v: &mut SmallIndexVec, x: usize)
    ensures
        tv_contents(*final(v)) == tv_contents(*old(v)).push(x),
{
    v.inner.push(x)
}

/// Relies on tinyvec::TinyVec::remove: takes out the element at `i`,
/// shifting the rest left.
#[verifier::external_body]
fn tv_remove(v: &mut SmallIndexVec, i: usize) -> (r: usize)
    requires
        i < tv_contents(*old(v)).len(),
    ensures
        r == tv_contents(*old(v))[i as int],
        tv_contents(*final(v)) == tv_contents(*old(v)).remove(i as int),
{
    v.inner.remove(i)
}

/// Relies on tinyvec::TinyVec::as_slice: exposes the elements in order.
#[verifier::external_body]
fn tv_as_slice(v: &SmallIndexVec) -> (r: &[usize])
    ensures
        r@ == tv_contents(*v),
{
    v.inner.as_slice()
}

/// What an optional slot holds: nothing, or its vector's elements.
pub open spec fn slot_contents(slot: Option<SmallIndexVec>) -> Seq<usize> {
    match slot {
        Some(v) => tv_contents(v),
        None => Seq::empty(),
    }
}

/// Drop the first occurrence of `x`, if any.
pub open spec fn remove_first(s: Seq<usize>, x: usize) -> Seq<usize> {
    match s.index_of_first(x) {
        Some(i) => s.remove(i),
        None => s,
    }
}

/// Total number of entries in the first `i` slots.
pub open spec fn multi_len(slots: Seq<Option<SmallIndexVec>>, i: int) -> nat
    decreases i,
{
    if i <= 0 {
        0
    } else {
        multi_len(slots, i - 1) + slot_contents(slots[i - 1]).len()
    }
}

/// A store whose sides map to several counterparts each.
pub trait MultiMappingStore: MappingStore {
    /// All destinations linked to `s`, in insertion order.
    spec fn dsts_of(&self, s: usize) -> Seq<usize>;

    /// All sources linked to `d`, in insertion order.
    spec fn srcs_of(&self, d: usize) -> Seq<usize>;

    fn get_dsts(&self, src: usize) -> (r: Vec<usize>)
        requires
            self.valid_src(src),
        ensures
            r@ == self.dsts_of(src),
    ;

    fn get_srcs(&self, dst: usize) -> (r: Vec<usize>)
        requires
            self.valid_dst(dst),
        ensures
            r@ == self.srcs_of(dst),
    ;

    /// The source indices whose slot is occupied, in ascending order.
    fn all_mapped_srcs(&self) -> (r: Vec<usize>)
        ensures
            forall|s: usize| #[trigger] r@.contains(s) <==> self.is_src_spec(s),
            forall|k: int, l: int| 0 <= k < l < r@.len() ==> r@[k] < r@[l],
    ;

    /// The destination indices whose slot is occupied, in ascending order.
    fn all_mapped_dsts(&self) -> (r: Vec<usize>)
        ensures
            forall|d: usize| #[trigger] r@.contains(d) <==> self.is_dst_spec(d),
            forall|k: int, l: int| 0 <= k < l < r@.len() ==> r@[k] < r@[l],
    ;

    fn is_src_unique(&self, src: usize) -> (r: bool)
        requires
            self.valid_src(src),
        ensures
            r == (self.dsts_of(src).len() == 1),
    ;

    fn is_dst_unique(&self, dst: usize) -> (r: bool)
        requires
            self.valid_dst(dst),
        ensures
            r == (self.srcs_of(dst).len() == 1),
    ;
}

/// Multi-valued store over two vectors of optional small vectors.
pub struct MultiVecStore {
    pub src_to_dsts: Vec<Option<SmallIndexVec>>,
    pub dst_to_srcs: Vec<Option<SmallIndexVec>>,
}

impl MultiVecStore {
    pub fn default() -> (r: Self)
        ensures
            r.src_to_dsts@.len() == 0,
            r.dst_to_srcs@.len() == 0,
    {
        MultiVecStore { src_to_dsts: Vec::new(), dst_to_srcs: Vec::new() }
    }

    pub open spec fn spec_dsts(&self, s: usize) -> Seq<usize> {
        if s < self.src_to_dsts@.len() {
            slot_contents(self.src_to_dsts@[s as int])
        } else {
            Seq::empty()
        }
    }

    pub open spec fn spec_srcs(&self, d: usize) -> Seq<usize> {
        if d < self.dst_to_srcs@.len() {
            slot_contents(self.dst_to_srcs@[d as int])
        } else {
            Seq::empty()
        }
    }
}

impl MappingStore for MultiVecStore {
    open spec fn valid_src(&self, s: usize) -> bool {
        s < self.src_to_dsts@.len()
    }

    open spec fn valid_dst(&self, d: usize) -> bool {
        d < self.dst_to_srcs@.len()
    }

    open spec fn is_src_spec(&self, s: usize) -> bool {
        s < self.src_to_dsts@.len() && self.src_to_dsts@[s as int] is Some
    }

    open spec fn is_dst_spec(&self, d: usize) -> bool {
        d < self.dst_to_srcs@.len() && self.dst_to_srcs@[d as int] is Some
    }

    open spec fn has_spec(&self, s: usize, d: usize) -> bool {
        self.spec_dsts(s).contains(d) && self.spec_srcs(d).contains(s)
    }

    open spec fn cap_spec(&self) -> (nat, nat) {
        (self.src_to_dsts@.len(), self.dst_to_srcs@.len())
    }

    open spec fn len_spec(&self) -> nat {
        multi_len(self.src_to_dsts@, self.src_to_dsts@.len() as int)
    }

    open spec fn topit_rel(pre: Self, post: Self, left: usize, right: usize) -> bool {
        &&& post.src_to_dsts@.len() == left + 1
        &&& post.dst_to_srcs@.len() == right + 1
        &&& forall|i: int|
            0 <= i < left + 1 ==> post.src_to_dsts@[i] == (if i < pre.src_to_dsts@.len() {
                pre.src_to_dsts@[i]
            } else {
                None
            })
        &&& forall|i: int|
            0 <= i < right + 1 ==> post.dst_to_srcs@[i] == (if i < pre.dst_to_srcs@.len() {
                pre.dst_to_srcs@[i]
            } else {
                None
            })
    }

    open spec fn link_rel(pre: Self, post: Self, s: usize, d: usize) -> bool {
        &&& post.src_to_dsts@.len() == pre.src_to_dsts@.len()
        &&& post.dst_to_srcs@.len() == pre.dst_to_srcs@.len()
        &&& post.spec_dsts(s) == pre.spec_dsts(s).push(d)
        &&& post.spec_srcs(d) == pre.spec_srcs(d).push(s)
        &&& post.is_src_spec(s)
        &&& post.is_dst_spec(d)
        &&& forall|x: usize|
            x != s ==> #[trigger] post.spec_dsts(x) == pre.spec_dsts(x) && post.is_src_spec(x)
                == pre.is_src_spec(x)
        &&& forall|x: usize|
            x != d ==> #[trigger] post.spec_srcs(x) == pre.spec_srcs(x) && post.is_dst_spec(x)
                == pre.is_dst_spec(x)
    }

    open spec fn cut_rel(pre: Self, post: Self, s: usize, d: usize) -> bool {
        &&& post.src_to_dsts@.len() == pre.src_to_dsts@.len()
        &&& post.dst_to_srcs@.len() == pre.dst_to_srcs@.len()
        &&& post.spec_dsts(s) == remove_first(pre.spec_dsts(s), d)
        &&& post.spec_srcs(d) == remove_first(pre.spec_srcs(d), s)
        &&& post.is_src_spec(s) == (pre.is_src_spec(s) && pre.spec_dsts(s) != seq![d])
        &&& post.is_dst_spec(d) == (pre.is_dst_spec(d) && pre.spec_srcs(d) != seq![s])
        &&& forall|x: usize|
            x != s ==> #[trigger] post.spec_dsts(x) == pre.spec_dsts(x) && post.is_src_spec(x)
                == pre.is_src_spec(x)
        &&& forall|x: usize|
            x != d ==> #[trigger] post.spec_srcs(x) == pre.spec_srcs(x) && post.is_dst_spec(x)
                == pre.is_dst_spec(x)
    }

    /// Sizes both sides to the given lengths plus one sentinel slot each,
    /// new slots unoccupied.
    fn topit(&mut self, left: usize, right: usize) {
        resize_with_nones(&mut self.src_to_dsts, left + 1);
        resize_with_nones(&mut self.dst_to_srcs, right + 1);
    }

    /// Sums the occupied slots' lengths.
    fn len(&self) -> (r: usize) {
        let n = self.src_to_dsts.len();
        let mut count: usize = 0;
        let mut i: usize = 0;
        while i < n
            invariant
                i <= n,
                n == self.src_to_dsts@.len(),
                count == multi_len(self.src_to_dsts@, i as int),
                multi_len(self.src_to_dsts@, n as int) <= usize::MAX,
            decreases n - i,
        {
            proof {
                lemma_multi_len_mono(self.src_to_dsts@, i + 1, n as int);
            }
            match &self.src_to_dsts[i] {
                Some(tv) => {
                    let s = tv_as_slice(tv);
                    count += s.len();
                },
                None => {},
            }
            i += 1;
        }
        count
    }

    fn capacity(&self) -> (r: (usize, usize)) {
        (self.src_to_dsts.len(), self.dst_to_srcs.len())
    }

    fn has(&self, src: usize, dst: usize) -> (r: bool) {
        proof {
            self.spec_dsts(src).index_of_first_ensures(dst);
            self.spec_srcs(dst).index_of_first_ensures(src);
        }
        let fwd = match &self.src_to_dsts[src] {
            Some(tv) => find_first(tv_as_slice(tv), dst).is_some(),
            None => false,
        };
        let bwd = match &self.dst_to_srcs[dst] {
            Some(tv) => find_first(tv_as_slice(tv), src).is_some(),
            None => false,
        };
        fwd && bwd
    }

    /// Appends on both sides, materialising an empty vector first when the
    /// slot was unoccupied.
    fn link(&mut self, src: usize, dst: usize) {
        let fwd = &mut self.src_to_dsts[src];
        if fwd.is_none() {
            *fwd = Some(tv_new());
        }
        match fwd {
            Some(tv) => tv_push(tv, dst),
            None => {},
        }
        let bwd = &mut self.dst_to_srcs[dst];
        if bwd.is_none() {
            *bwd = Some(tv_new());
        }
        match bwd {
            Some(tv) => tv_push(tv, src),
            None => {},
        }
    }

    /// Removes the first `dst` entry under `src` and the first `src` entry
    /// under `dst`; a slot whose last entry leaves becomes unoccupied.
    fn cut(&mut self, src: usize, dst: usize) {
        proof {
            old(self).spec_dsts(src).index_of_first_ensures(dst);
            old(self).spec_srcs(dst).index_of_first_ensures(src);
            assert(seq![dst][0] == dst);
            assert(seq![src][0] == src);
        }
        let ghost pre_fwd = self.spec_dsts(src);
        let found_fwd: Option<usize> = match &self.src_to_dsts[src] {
            Some(tv) => find_first(tv_as_slice(tv), dst),
            None => None,
        };
        match found_fwd {
            Some(i) => {
                let l = match &self.src_to_dsts[src] {
                    Some(tv) => tv_as_slice(tv).len(),
                    None => 0,
                };
                if l == 1 {
                    self.src_to_dsts[src] = None;
                    proof {
                        assert(pre_fwd =~= seq![dst]);
                        assert(self.spec_dsts(src) =~= remove_first(pre_fwd, dst));
                    }
                } else {
                    let fwd = &mut self.src_to_dsts[src];
                    match fwd {
                        Some(tv) => {
                            let _removed: usize = tv_remove(tv, i);
                        },
                        None => {},
                    }
                    proof {
                        assert(pre_fwd != seq![dst]);
                    }
                }
            },
            None => {
                proof {
                    assert(!pre_fwd.contains(dst));
                    if pre_fwd == seq![dst] {
                        assert(pre_fwd.contains(dst));
                    }
                }
            },
        }
        let ghost pre_bwd = self.spec_srcs(dst);
        proof {
            assert(pre_bwd == old(self).spec_srcs(dst));
        }
        let found_bwd: Option<usize> = match &self.dst_to_srcs[dst] {
            Some(tv) => find_first(tv_as_slice(tv), src),
            None => None,
        };
        match found_bwd {
            Some(i) => {
                let l = match &self.dst_to_srcs[dst] {
                    Some(tv) => tv_as_slice(tv).len(),
                    None => 0,
                };
                if l == 1 {
                    self.dst_to_srcs[dst] = None;
                    proof {
                        assert(pre_bwd =~= seq![src]);
                        assert(self.spec_srcs(dst) =~= remove_first(pre_bwd, src));
                    }
                } else {
                    let bwd = &mut self.dst_to_srcs[dst];
                    match bwd {
                        Some(tv) => {
                            let _removed: usize = tv_remove(tv, i);
                        },
                        None => {},
                    }
                    proof {
                        assert(pre_bwd != seq![src]);
                    }
                }
            },
            None => {
                proof {
                    assert(!pre_bwd.contains(src));
                    if pre_bwd == seq![src] {
                        assert(pre_bwd.contains(src));
                    }
                }
            },
        }
    }

    fn is_src(&self, src: usize) -> (r: bool) {
        self.src_to_dsts[src].is_some()
    }

    fn is_dst(&self, dst: usize) -> (r: bool) {
        self.dst_to_srcs[dst].is_some()
    }
}

impl MultiMappingStore for MultiVecStore {
    open spec fn dsts_of(&self, s: usize) -> Seq<usize> {
        self.spec_dsts(s)
    }

    open spec fn srcs_of(&self, d: usize) -> Seq<usize> {
        self.spec_srcs(d)
    }

    fn get_dsts(&self, src: usize) -> (r: Vec<usize>) {
        match &self.src_to_dsts[src] {
            Some(tv) => vstd::slice::slice_to_vec(tv_as_slice(tv)),
            None => Vec::new(),
        }
    }

    fn get_srcs(&self, dst: usize) -> (r: Vec<usize>) {
        match &self.dst_to_srcs[dst] {
            Some(tv) => vstd::slice::slice_to_vec(tv_as_slice(tv)),
            None => Vec::new(),
        }
    }

    fn all_mapped_srcs(&self) -> (r: Vec<usize>) {
        occupied_slots(&self.src_to_dsts)
    }

    fn all_mapped_dsts(&self) -> (r: Vec<usize>) {
        occupied_slots(&self.dst_to_srcs)
    }

    fn is_src_unique(&self, src: usize) -> (r: bool) {
        match &self.src_to_dsts[src] {
            Some(tv) => tv_as_slice(tv).len() == 1,
            None => false,
        }
    }

    fn is_dst_unique(&self, dst: usize) -> (r: bool) {
        match &self.dst_to_srcs[dst] {
            Some(tv) => tv_as_slice(tv).len() == 1,
            None => false,
        }
    }
}

/// The indices of the occupied slots, ascending.
fn occupied_slots(v: &Vec<Option<SmallIndexVec>>) -> (r: Vec<usize>)
    ensures
        forall|s: usize| #[trigger]
            r@.contains(s) <==> s < v@.len() && v@[s as int] is Some,
        forall|k: int, l: int| 0 <= k < l < r@.len() ==> r@[k] < r@[l],
{
    let n = v.len();
    let mut r: Vec<usize> = Vec::new();
    let mut i: usize = 0;
    while i < n
        invariant
            i <= n,
            n == v@.len(),
            forall|s: usize| #[trigger]
                r@.contains(s) <==> s < i && v@[s as int] is Some,
            forall|k: int, l: int| 0 <= k < l < r@.len() ==> r@[k] < r@[l],
            forall|k: int| 0 <= k < r@.len() ==> r@[k] < i,
        decreases n - i,
    {
        if v[i].is_some() {
            let ghost prev = r@;
            r.push(i);
            proof {
                assert forall|s: usize| #[trigger] r@.contains(s) implies s < i + 1 && v@[s as int] is Some by {
                    let k = choose|k: int| 0 <= k < r@.len() && r@[k] == s;
                    if k < prev.len() {
                        assert(prev[k] == s);
                        assert(prev.contains(s));
                    }
                }
                assert forall|s: usize| s < i + 1 && v@[s as int] is Some implies #[trigger] r@.contains(s) by {
                    if s < i {
                        assert(prev.contains(s));
                        let k = choose|k: int| 0 <= k < prev.len() && prev[k] == s;
                        assert(r@[k] == s);
                    } else {
                        assert(r@[r@.len() - 1] == s);
                    }
                }
            }
        } else {
            proof {
                assert forall|s: usize| #[trigger] r@.contains(s) implies s < i + 1 && v@[s as int] is Some by {}
                assert forall|s: usize| s < i + 1 && v@[s as int] is Some implies #[trigger] r@.contains(s) by {
                    assert(s < i || s == i);
                }
            }
        }
        i += 1;
    }
    r
}

/// First position of `x` in the slice, if any; agrees with the sequence's
/// own notion of a first occurrence.
fn find_first(s: &[usize], x: usize) -> (r: Option<usize>)
    ensures
        match r {
            Some(i) => s@.index_of_first(x) == Some(i as int),
            None => s@.index_of_first(x) is None,
        },
{
    proof {
        s@.index_of_first_ensures(x);
    }
    let n = s.len();
    let mut i: usize = 0;
    while i < n
        invariant
            i <= n,
            n == s@.len(),
            forall|j: int| 0 <= j < i ==> s@[j] != x,
        decreases n - i,
    {
        if s[i] == x {
            proof {
                s@.index_of_first_ensures(x);
            }
            return Some(i);
        }
        i += 1;
    }
    proof {
        s@.index_of_first_ensures(x);
        if s@.contains(x) {
            let j = choose|j: int| 0 <= j < s@.len() && s@[j] == x;
            assert(false);
        }
    }
    None
}

/// Total entry count never decreases as the scanned prefix grows.
proof fn lemma_multi_len_mono(slots: Seq<Option<SmallIndexVec>>, i: int, j: int)
    requires
        i <= j,
    ensures
        multi_len(slots, i) <= multi_len(slots, j),
    decreases j - i,
{
    if i < j {
        lemma_multi_len_mono(slots, i, j - 1);
    }
}

/// Set `v` to length `n`, keeping the prefix and filling new slots with
/// unoccupied entries.
fn resize_with_nones(v: &mut Vec<Option<SmallIndexVec>>, n: usize)
    ensures
        final(v)@.len() == n,
        forall|i: int|
            0 <= i < n ==> final(v)@[i] == (if i < old(v)@.len() {
                old(v)@[i]
            } else {
                None::<SmallIndexVec>
            }),
{
    if v.len() > n {
        v.truncate(n);
    } else {
        while v.len() < n
            invariant
                v@.len() <= n,
                v@.len() >= old(v)@.len(),
                forall|i: int|
                    0 <= i < v@.len() ==> v@[i] == (if i < old(v)@.len() {
                        old(v)@[i]
                    } else {
                        None::<SmallIndexVec>
                    }),
            decreases n - v@.len(),
        {
            v.push(None);
        }
    }
}

} // verus!
