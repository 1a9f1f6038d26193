//! Bidirectional mapping stores between source-side and destination-side
//! node indices.
//!
//! The dense variant keeps two integer vectors with the `+ 1` sentinel
//! encoding: slot value `0` means "unmapped", value `v` means "mapped to
//! index `v - 1`".  The hash-backed variant keeps two hash maps with the
//! same read contract and is preferred when the index domain is large and
//! sparsely used.

use vstd::prelude::*;
use vstd::std_specs::iter::IteratorSpec;
use vstd::string::StringExecFns;

verus! {

broadcast use vstd::std_specs::hash::group_hash_axioms;

/// Common contract of every mapping store.  Each implementor explains its
/// own state through the spec functions; the executable methods are pinned
/// to them.
pub trait MappingStore: Sized {
    /// Source indices that can be addressed without fault.
    spec fn valid_src(&self, s: usize) -> bool;

    /// Destination indices that can be addressed without fault.
    spec fn valid_dst(&self, d: usize) -> bool;

    /// What `is_src` reports.
    spec fn is_src_spec(&self, s: usize) -> bool;

    /// What `is_dst` reports.
    spec fn is_dst_spec(&self, d: usize) -> bool;

    /// What `has` reports.
    spec fn has_spec(&self, s: usize, d: usize) -> bool;

    /// What `capacity` reports.
    spec fn cap_spec(&self) -> (nat, nat);

    /// What `len` reports.
    spec fn len_spec(&self) -> nat;

    /// How `topit` changes the store.
    spec fn topit_rel(pre: Self, post: Self, left: usize, right: usize) -> bool;

    /// How `link` changes the store.
    spec fn link_rel(pre: Self, post: Self, s: usize, d: usize) -> bool;

    /// How `cut` changes the store.
    spec fn cut_rel(pre: Self, post: Self, s: usize, d: usize) -> bool;

    /// Make indices up to `left` on the source side and `right` on the
    /// destination side addressable.
    fn topit(&mut self, left: usize, right: usize)
        requires
            left < usize::MAX,
            right < usize::MAX,
        ensures
            Self::topit_rel(*old(self), *final(self), left, right),
    ;

    /// Number of mapped source indices.
    fn len(&self) -> (r: usize)
        requires
            self.len_spec() <= usize::MAX,
        ensures
            r == self.len_spec(),
    ;

    fn capacity(&self) -> (r: (usize, usize))
        ensures
            r.0 as nat == self.cap_spec().0,
            r.1 as nat == self.cap_spec().1,
    ;

    fn has(&self, src: usize, dst: usize) -> (r: bool)
        requires
            self.valid_src(src),
            self.valid_dst(dst),
            src < usize::MAX,
            dst < usize::MAX,
        ensures
            r == self.has_spec(src, dst),
    ;

    fn link(&mut self, src: usize, dst: usize)
        requires
            old(self).valid_src(src),
            old(self).valid_dst(dst),
            src < usize::MAX,
            dst < usize::MAX,
        ensures
            Self::link_rel(*old(self), *final(self), src, dst),
    ;

    fn cut(&mut self, src: usize, dst: usize)
        requires
            old(self).valid_src(src),
            old(self).valid_dst(dst),
        ensures
            Self::cut_rel(*old(self), *final(self), src, dst),
    ;

    fn is_src(&self, src: usize) -> (r: bool)
        requires
            self.valid_src(src),
        ensures
            r == self.is_src_spec(src),
    ;

    fn is_dst(&self, dst: usize) -> (r: bool)
        requires
            self.valid_dst(dst),
        ensures
            r == self.is_dst_spec(dst),
    ;
}

/// The write-only face of a mapping store.
pub trait MappingStoreBuilding: Sized {
    spec fn b_valid_src(&self, s: usize) -> bool;

    spec fn b_valid_dst(&self, d: usize) -> bool;

    spec fn b_topit_rel(pre: Self, post: Self, left: usize, right: usize) -> bool;

    spec fn b_link_rel(pre: Self, post: Self, s: usize, d: usize) -> bool;

    spec fn b_cut_rel(pre: Self, post: Self, s: usize, d: usize) -> bool;

    fn topit(&mut self, left: usize, right: usize)
        requires
            left < usize::MAX,
            right < usize::MAX,
        ensures
            Self::b_topit_rel(*old(self), *final(self), left, right),
    ;

    fn link(&mut self, src: usize, dst: usize)
        requires
            old(self).b_valid_src(src),
            old(self).b_valid_dst(dst),
        ensures
            Self::b_link_rel(*old(self), *final(self), src, dst),
    ;

    fn cut(&mut self, src: usize, dst: usize)
        requires
            old(self).b_valid_src(src),
            old(self).b_valid_dst(dst),
        ensures
            Self::b_cut_rel(*old(self), *final(self), src, dst),
    ;
}

/// The read-only face of a mapping store.
pub trait MappingStoreReading: Sized {
    spec fn r_valid_src(&self, s: usize) -> bool;

    spec fn r_valid_dst(&self, d: usize) -> bool;

    spec fn r_is_src_spec(&self, s: usize) -> bool;

    spec fn r_is_dst_spec(&self, d: usize) -> bool;

    spec fn r_has_spec(&self, s: usize, d: usize) -> bool;

    fn has(&self, src: usize, dst: usize) -> (r: bool)
        requires
            self.r_valid_src(src),
            self.r_valid_dst(dst),
        ensures
            r == self.r_has_spec(src, dst),
    ;

    fn is_src(&self, src: usize) -> (r: bool)
        requires
            self.r_valid_src(src),
        ensures
            r == self.r_is_src_spec(src),
    ;

    fn is_dst(&self, dst: usize) -> (r: bool)
        requires
            self.r_valid_dst(dst),
        ensures
            r == self.r_is_dst_spec(dst),
    ;
}

/// An injective store: each side maps to at most one counterpart.  The two
/// partial maps `s2d` and `d2s` are the authoritative model; the lemmas tie
/// the shared `MappingStore` contract to that model, so that code generic
/// over this trait can reason about every implementor at once.
pub trait MonoMappingStore: MappingStore {
    /// The forward partial map, source index to destination index.
    spec fn s2d(&self) -> Map<usize, usize>;

    /// The backward partial map, destination index to source index.
    spec fn d2s(&self) -> Map<usize, usize>;

    /// `is_src`/`is_dst` report membership in the two maps.
    proof fn lemma_reads(&self)
        ensures
            forall|s: usize| #[trigger] self.is_src_spec(s) == self.s2d().contains_key(s),
            forall|d: usize| #[trigger] self.is_dst_spec(d) == self.d2s().contains_key(d),
    ;

    /// `link` inserts the pair in both directions, overwriting either slot.
    proof fn lemma_link(pre: Self, post: Self, s: usize, d: usize)
        requires
            Self::link_rel(pre, post, s, d),
            pre.valid_src(s),
            pre.valid_dst(d),
            s < usize::MAX,
            d < usize::MAX,
        ensures
            post.s2d() == pre.s2d().insert(s, d),
            post.d2s() == pre.d2s().insert(d, s),
            forall|x: usize| #[trigger] post.valid_src(x) == pre.valid_src(x),
            forall|x: usize| #[trigger] post.valid_dst(x) == pre.valid_dst(x),
    ;

    /// `cut` removes one key on each side.
    proof fn lemma_cut(pre: Self, post: Self, s: usize, d: usize)
        requires
            Self::cut_rel(pre, post, s, d),
            pre.valid_src(s),
            pre.valid_dst(d),
        ensures
            post.s2d() == pre.s2d().remove(s),
            post.d2s() == pre.d2s().remove(d),
            forall|x: usize| #[trigger] post.valid_src(x) == pre.valid_src(x),
            forall|x: usize| #[trigger] post.valid_dst(x) == pre.valid_dst(x),
    ;

    /// `topit` widens the addressable ranges and never invents entries;
    /// entries within the new ranges survive.
    proof fn lemma_topit(pre: Self, post: Self, left: usize, right: usize)
        requires
            Self::topit_rel(pre, post, left, right),
        ensures
            forall|s: usize| s <= left ==> #[trigger] post.valid_src(s),
            forall|d: usize| d <= right ==> #[trigger] post.valid_dst(d),
            forall|s: usize| #[trigger]
                post.s2d().contains_key(s) ==> pre.s2d().contains_key(s) && post.s2d()[s]
                    == pre.s2d()[s],
            forall|d: usize| #[trigger]
                post.d2s().contains_key(d) ==> pre.d2s().contains_key(d) && post.d2s()[d]
                    == pre.d2s()[d],
            forall|s: usize| #[trigger]
                pre.s2d().contains_key(s) && s <= left ==> post.s2d().contains_key(s),
            forall|d: usize| #[trigger]
                pre.d2s().contains_key(d) && d <= right ==> post.d2s().contains_key(d),
    ;

    fn get_src_unchecked(&self, dst: usize) -> (r: usize)
        requires
            self.valid_dst(dst),
            self.d2s().contains_key(dst),
        ensures
            r == self.d2s()[dst],
    ;

    fn get_dst_unchecked(&self, src: usize) -> (r: usize)
        requires
            self.valid_src(src),
            self.s2d().contains_key(src),
        ensures
            r == self.s2d()[src],
    ;

    fn get_src(&self, dst: usize) -> (r: Option<usize>)
        ensures
            r == if self.d2s().contains_key(dst) {
                Some(self.d2s()[dst])
            } else {
                None::<usize>
            },
    ;

    fn get_dst(&self, src: usize) -> (r: Option<usize>)
        ensures
            r == if self.s2d().contains_key(src) {
                Some(self.s2d()[src])
            } else {
                None::<usize>
            },
    ;

    /// Links and reports `true` exactly when both sides are *already*
    /// mapped; see the note on the dense store's inherent method.
    fn link_if_both_unmapped(&mut self, t1: usize, t2: usize) -> (r: bool)
        requires
            old(self).valid_src(t1),
            old(self).valid_dst(t2),
            t1 < usize::MAX,
            t2 < usize::MAX,
        ensures
            r == (old(self).is_src_spec(t1) && old(self).is_dst_spec(t2)),
            r ==> Self::link_rel(*old(self), *final(self), t1, t2),
            !r ==> *final(self) == *old(self),
    ;

    /// Every forward entry, as pairs, in an implementation-chosen order.
    fn iter(&self) -> (r: Vec<(usize, usize)>)
        ensures
            r@.no_duplicates(),
            forall|p: (usize, usize)| #[trigger]
                r@.contains(p) <==> self.s2d().contains_key(p.0) && self.s2d()[p.0] == p.1,
    ;
}

/// Dense injective mapping store backed by two sentinel-encoded vectors.
#[derive(Debug, Clone)]
pub struct VecStore {
    pub src_to_dst: Vec<usize>,
    pub dst_to_src: Vec<usize>,
}

/// Number of non-zero slots in the first `i` entries of a sentinel vector.
pub open spec fn nonzero_count(s: Seq<usize>, i: int) -> nat
    decreases i,
{
    if i <= 0 {
        0
    } else {
        nonzero_count(s, i - 1) + (if s[i - 1] != 0 {
            1nat
        } else {
            0nat
        })
    }
}

/// The pairs `(s, s2d[s])` encoded by the first `i` slots of a forward
/// sentinel vector, in ascending order of `s`.
pub open spec fn pairs_upto(s: Seq<usize>, i: int) -> Seq<(usize, usize)>
    decreases i,
{
    if i <= 0 {
        Seq::empty()
    } else {
        pairs_upto(s, i - 1) + (if s[i - 1] != 0 {
            seq![(((i - 1) as usize), ((s[i - 1] - 1) as usize))]
        } else {
            Seq::empty()
        })
    }
}

impl VecStore {
    /// The partial map from source indices to destination indices that the
    /// forward vector encodes.
    pub open spec fn spec_s2d(&self) -> Map<usize, usize> {
        Map::new(
            |s: usize| s < self.src_to_dst@.len() && self.src_to_dst@[s as int] != 0,
            |s: usize| (self.src_to_dst@[s as int] - 1) as usize,
        )
    }

    /// The partial map from destination indices to source indices that the
    /// backward vector encodes.
    pub open spec fn spec_d2s(&self) -> Map<usize, usize> {
        Map::new(
            |d: usize| d < self.dst_to_src@.len() && self.dst_to_src@[d as int] != 0,
            |d: usize| (self.dst_to_src@[d as int] - 1) as usize,
        )
    }

    /// Both directions agree on the pair `(s, d)`.
    pub open spec fn spec_has(&self, s: usize, d: usize) -> bool {
        &&& self.spec_s2d().contains_key(s)
        &&& self.spec_s2d()[s] == d
        &&& self.spec_d2s().contains_key(d)
        &&& self.spec_d2s()[d] == s
    }

    pub fn default() -> (r: Self)
        ensures
            r.src_to_dst@.len() == 0,
            r.dst_to_src@.len() == 0,
    {
        VecStore { src_to_dst: Vec::new(), dst_to_src: Vec::new() }
    }

    /// Every mapped pair in ascending order of source index.
    pub fn _iter(&self) -> (r: Vec<(usize, usize)>)
        ensures
            r@ == pairs_upto(self.src_to_dst@, self.src_to_dst@.len() as int),
    {
        let mut r: Vec<(usize, usize)> = Vec::new();
        let n = self.src_to_dst.len();
        let mut i: usize = 0;
        while i < n
            invariant
                i <= n,
                n == self.src_to_dst@.len(),
                r@ == pairs_upto(self.src_to_dst@, i as int),
            decreases n - i,
        {
            let v = self.src_to_dst[i];
            if v != 0 {
                r.push((i, v - 1));
            }
            i += 1;
        }
        r
    }

    /// Links and reports `true` exactly when `t1` is already a mapped
    /// source and `t2` already a mapped destination.  The guard tests the
    /// opposite of what the name reads; callers that need the name's
    /// reading probe both sides themselves before linking, so the guard is
    /// left exactly as it behaves.
    pub fn link_if_both_unmapped(&mut self, t1: usize, t2: usize) -> (r: bool)
        requires
            t1 < old(self).src_to_dst@.len(),
            t2 < old(self).dst_to_src@.len(),
            t1 < usize::MAX,
            t2 < usize::MAX,
        ensures
            r == (old(self).spec_s2d().contains_key(t1) && old(self).spec_d2s().contains_key(t2)),
            r ==> final(self).spec_s2d() == old(self).spec_s2d().insert(t1, t2),
            r ==> final(self).spec_d2s() == old(self).spec_d2s().insert(t2, t1),
            !r ==> *final(self) == *old(self),
    {
        if self.is_src(t1) && self.is_dst(t2) {
            self.link(t1, t2);
            true
        } else {
            false
        }
    }
}

impl MappingStore for VecStore {
    open spec fn valid_src(&self, s: usize) -> bool {
        s < self.src_to_dst@.len()
    }

    open spec fn valid_dst(&self, d: usize) -> bool {
        d < self.dst_to_src@.len()
    }

    open spec fn is_src_spec(&self, s: usize) -> bool {
        self.spec_s2d().contains_key(s)
    }

    open spec fn is_dst_spec(&self, d: usize) -> bool {
        self.spec_d2s().contains_key(d)
    }

    open spec fn has_spec(&self, s: usize, d: usize) -> bool {
        self.spec_has(s, d)
    }

    open spec fn cap_spec(&self) -> (nat, nat) {
        (self.src_to_dst@.len(), self.dst_to_src@.len())
    }

    open spec fn len_spec(&self) -> nat {
        nonzero_count(self.src_to_dst@, self.src_to_dst@.len() as int)
    }

    open spec fn topit_rel(pre: Self, post: Self, left: usize, right: usize) -> bool {
        &&& post.src_to_dst@.len() == left + 1
        &&& post.dst_to_src@.len() == right + 1
        &&& forall|i: int|
            0 <= i < left + 1 ==> post.src_to_dst@[i] == (if i < pre.src_to_dst@.len() {
                pre.src_to_dst@[i]
            } else {
                0usize
            })
        &&& forall|i: int|
            0 <= i < right + 1 ==> post.dst_to_src@[i] == (if i < pre.dst_to_src@.len() {
                pre.dst_to_src@[i]
            } else {
                0usize
            })
    }

    open spec fn link_rel(pre: Self, post: Self, s: usize, d: usize) -> bool {
        &&& post.src_to_dst@ == pre.src_to_dst@.update(s as int, (d + 1) as usize)
        &&& post.dst_to_src@ == pre.dst_to_src@.update(d as int, (s + 1) as usize)
    }

    open spec fn cut_rel(pre: Self, post: Self, s: usize, d: usize) -> bool {
        &&& post.src_to_dst@ == pre.src_to_dst@.update(s as int, 0usize)
        &&& post.dst_to_src@ == pre.dst_to_src@.update(d as int, 0usize)
    }

    /// Grow (or shrink) both sides so that indices up to `left` and `right`
    /// inclusive have a slot, new slots being "unmapped".
    fn topit(&mut self, left: usize, right: usize) {
        resize_with_zeros(&mut self.src_to_dst, left + 1);
        resize_with_zeros(&mut self.dst_to_src, right + 1);
    }

    /// Scans the forward vector for non-zero slots.
    fn len(&self) -> (r: usize) {
        let n = self.src_to_dst.len();
        let mut count: usize = 0;
        let mut i: usize = 0;
        while i < n
            invariant
                i <= n,
                n == self.src_to_dst@.len(),
                count == nonzero_count(self.src_to_dst@, i as int),
                nonzero_count(self.src_to_dst@, n as int) <= usize::MAX,
            decreases n - i,
        {
            proof {
                lemma_nonzero_count_mono(self.src_to_dst@, i + 1, n as int);
            }
            if self.src_to_dst[i] != 0 {
                count += 1;
            }
            i += 1;
        }
        count
    }

    fn capacity(&self) -> (r: (usize, usize)) {
        (self.src_to_dst.len(), self.dst_to_src.len())
    }

    /// A pair is present exactly when the forward slot holds `dst + 1` and
    /// the backward slot holds `src + 1`.
    fn has(&self, src: usize, dst: usize) -> (r: bool) {
        self.src_to_dst[src] == dst + 1 && self.dst_to_src[dst] == src + 1
    }

    /// Record the pair `(src, dst)` in both directions, overwriting whatever
    /// either slot held.
    fn link(&mut self, src: usize, dst: usize) {
        self.src_to_dst[src] = dst + 1;
        self.dst_to_src[dst] = src + 1;
    }

    /// Clear both slots of the pair `(src, dst)`.
    fn cut(&mut self, src: usize, dst: usize) {
        self.src_to_dst[src] = 0;
        self.dst_to_src[dst] = 0;
    }

    fn is_src(&self, src: usize) -> (r: bool) {
        self.src_to_dst[src] != 0
    }

    fn is_dst(&self, dst: usize) -> (r: bool) {
        self.dst_to_src[dst] != 0
    }
}

impl MonoMappingStore for VecStore {
    open spec fn s2d(&self) -> Map<usize, usize> {
        self.spec_s2d()
    }

    open spec fn d2s(&self) -> Map<usize, usize> {
        self.spec_d2s()
    }

    proof fn lemma_reads(&self) {
    }

    proof fn lemma_link(pre: Self, post: Self, s: usize, d: usize) {
        assert(post.s2d() =~= pre.s2d().insert(s, d));
        assert(post.d2s() =~= pre.d2s().insert(d, s));
    }

    proof fn lemma_cut(pre: Self, post: Self, s: usize, d: usize) {
        assert(post.s2d() =~= pre.s2d().remove(s));
        assert(post.d2s() =~= pre.d2s().remove(d));
    }

    proof fn lemma_topit(pre: Self, post: Self, left: usize, right: usize) {
    }

    fn get_src_unchecked(&self, dst: usize) -> (r: usize) {
        self.dst_to_src[dst] - 1
    }

    fn get_dst_unchecked(&self, src: usize) -> (r: usize) {
        self.src_to_dst[src] - 1
    }

    fn get_src(&self, dst: usize) -> (r: Option<usize>) {
        if dst < self.dst_to_src.len() {
            let v = self.dst_to_src[dst];
            if v != 0 {
                Some(v - 1)
            } else {
                None
            }
        } else {
            None
        }
    }

    fn get_dst(&self, src: usize) -> (r: Option<usize>) {
        if src < self.src_to_dst.len() {
            let v = self.src_to_dst[src];
            if v != 0 {
                Some(v - 1)
            } else {
                None
            }
        } else {
            None
        }
    }

    fn link_if_both_unmapped(&mut self, t1: usize, t2: usize) -> (r: bool) {
        if self.is_src(t1) && self.is_dst(t2) {
            self.link(t1, t2);
            true
        } else {
            false
        }
    }

    fn iter(&self) -> (r: Vec<(usize, usize)>) {
        let _n: usize = self.src_to_dst.len();
        let r = self._iter();
        proof {
            lemma_pairs_upto_chars(self.src_to_dst@, self.src_to_dst@.len() as int);
        }
        r
    }
}

/// In the first `i` slots: the pair list has no duplicates, is sorted by
/// source index, and holds exactly the non-zero slots below `i`.
proof fn lemma_pairs_upto_chars(s: Seq<usize>, i: int)
    requires
        0 <= i <= s.len(),
        s.len() <= usize::MAX,
    ensures
        pairs_upto(s, i).no_duplicates(),
        forall|p: (usize, usize)| #[trigger]
            pairs_upto(s, i).contains(p) <==> p.0 < i && s[p.0 as int] != 0 && p.1 == s[p.0 as int]
                - 1,
        forall|k: int, l: int|
            0 <= k < l < pairs_upto(s, i).len() ==> pairs_upto(s, i)[k].0 < pairs_upto(s, i)[l].0,
    decreases i,
{
    if i > 0 {
        lemma_pairs_upto_chars(s, i - 1);
        let prev = pairs_upto(s, i - 1);
        let cur = pairs_upto(s, i);
        assert(forall|k: int| 0 <= k < prev.len() ==> cur[k] == prev[k]);
        assert forall|p: (usize, usize)| #[trigger]
            cur.contains(p) implies p.0 < i && s[p.0 as int] != 0 && p.1 == s[p.0 as int]
            - 1 by {
            let k = choose|k: int| 0 <= k < cur.len() && cur[k] == p;
            if k < prev.len() {
                assert(prev[k] == p);
                assert(prev.contains(p));
            } else {
                assert(s[i - 1] != 0);
                assert(cur[k] == (((i - 1) as usize), ((s[i - 1] - 1) as usize)));
            }
        }
        assert forall|p: (usize, usize)|
            p.0 < i && s[p.0 as int] != 0 && p.1 == s[p.0 as int] - 1 implies #[trigger] cur.contains(
            p,
        ) by {
            if p.0 < i - 1 {
                assert(prev.contains(p));
                let k = choose|k: int| 0 <= k < prev.len() && prev[k] == p;
                assert(cur[k] == p);
            } else {
                assert(p.0 == i - 1);
                assert(cur[cur.len() - 1] == p);
            }
        }
        assert forall|k: int, l: int| 0 <= k < l < cur.len() implies cur[k].0 < cur[l].0 by {
            if l < prev.len() {
                assert(prev[k].0 < prev[l].0);
            } else {
                assert(cur[l] == (((i - 1) as usize), ((s[i - 1] - 1) as usize)));
                assert(prev.contains(prev[k]));
                assert(cur[k].0 < i - 1);
            }
        }
        assert forall|k: int, l: int| 0 <= k < l < cur.len() implies cur[k] != cur[l] by {
            assert(cur[k].0 < cur[l].0);
        }
        assert(cur.no_duplicates());
    }
}

/// A pair the dense store holds is exclusive: the source agrees with no
/// other destination and the destination with no other source.
pub proof fn lemma_mono_pair_unique(m: &VecStore, s: usize, d: usize, s2: usize, d2: usize)
    requires
        m.spec_has(s, d),
    ensures
        m.spec_has(s, d2) ==> d2 == d,
        m.spec_has(s2, d) ==> s2 == s,
{
}

/// A displayable snapshot of a dense store's pairs.
pub struct DisplayVecStore {
    pub pairs: Vec<(usize, usize)>,
}

impl VecStore {
    /// Snapshot the mapped pairs for rendering.
    pub fn display(&self) -> (r: DisplayVecStore)
        ensures
            r.pairs@ == pairs_upto(self.src_to_dst@, self.src_to_dst@.len() as int),
    {
        DisplayVecStore { pairs: self._iter() }
    }
}

/// The text std's formatter produces for one pair: the two indices in
/// decimal, parenthesised, comma-separated, newline-terminated.
pub uninterp spec fn pair_line(s: usize, d: usize) -> Seq<char>;

/// The rendering of the first `k` pairs: one line per pair, in order.
pub open spec fn rendered(pairs: Seq<(usize, usize)>, k: int) -> Seq<char>
    decreases k,
{
    if k <= 0 {
        Seq::empty()
    } else {
        rendered(pairs, k - 1) + pair_line(pairs[k - 1].0, pairs[k - 1].1)
    }
}

impl DisplayVecStore {
    /// One line per mapped pair, in order.
    pub fn render(&self) -> (out: String)
        ensures
            out@ == rendered(self.pairs@, self.pairs@.len() as int),
    {
        let mut out = String::new();
        let n = self.pairs.len();
        let mut i: usize = 0;
        while i < n
            invariant
                i <= n,
                n == self.pairs@.len(),
                out@ == rendered(self.pairs@, i as int),
            decreases n - i,
        {
            let p = self.pairs[i];
            let line = fmt_pair(p.0, p.1);
            out.append(line.as_str());
            i += 1;
        }
        out
    }
}

/// Relies on std's format machinery to print one pair; the text depends
/// on the two indices alone.
#[verifier::external_body]
fn fmt_pair(s: usize, d: usize) -> (r: String)
    ensures
        r@ == pair_line(s, d),
{
    format!("({},{})\n", s, d)
}

/// Sparse injective mapping store backed by two hash maps; the read
/// contract matches the dense store, but `topit` is a no-op and any index
/// is addressable.
#[derive(Debug)]
pub struct HashStore {
    pub src_to_dst: std::collections::HashMap<usize, usize>,
    pub dst_to_src: std::collections::HashMap<usize, usize>,
}

impl HashStore {
    pub fn default() -> (r: Self)
        ensures
            r.src_to_dst@ == Map::<usize, usize>::empty(),
            r.dst_to_src@ == Map::<usize, usize>::empty(),
    {
        HashStore {
            src_to_dst: std::collections::HashMap::new(),
            dst_to_src: std::collections::HashMap::new(),
        }
    }

    /// Every forward entry as a pair, in whatever order the hash map walks
    /// its buckets.
    pub fn iter(&self) -> (r: Vec<(usize, usize)>)
        ensures
            r@.no_duplicates(),
            forall|p: (usize, usize)| #[trigger]
                r@.contains(p) <==> self.src_to_dst@.contains_key(p.0) && self.src_to_dst@[p.0]
                    == p.1,
    {
        let mut r: Vec<(usize, usize)> = Vec::new();
        let ghost entries = vstd::std_specs::hash::spec_hash_map_iter(
            &self.src_to_dst,
        ).remaining().unref();
        for p in it: self.src_to_dst.iter()
            invariant
                r@.len() == it.index(),
                it.seq().unref() == entries,
                forall|j: int| 0 <= j < r@.len() ==> r@[j] == it.seq().unref()[j],
                it.seq().no_duplicates(),
        {
            r.push((*p.0, *p.1));
        }
        proof {
            assert(r@ =~= entries);
            let m = self.src_to_dst@;
            assert(entries.to_set() == m.kv_pairs());
            assert forall|p: (usize, usize)| #[trigger]
                r@.contains(p) implies m.contains_key(p.0) && m[p.0] == p.1 by {
                assert(entries.to_set().contains(p));
                assert(m.kv_pairs().contains(p));
            }
            assert forall|p: (usize, usize)|
                m.contains_key(p.0) && m[p.0] == p.1 implies #[trigger] r@.contains(p) by {
                assert(m.kv_pairs().contains(p));
                assert(entries.to_set().contains(p));
            }
            assert(r@.no_duplicates());
        }
        r
    }

    /// Links and reports `true` exactly when `t1` is already a mapped
    /// source and `t2` already a mapped destination; same guard as the
    /// dense store's method of this name.
    pub fn link_if_both_unmapped(&mut self, t1: usize, t2: usize) -> (r: bool)
        ensures
            r == (old(self).src_to_dst@.contains_key(t1) && old(self).dst_to_src@.contains_key(
                t2,
            )),
            r ==> final(self).src_to_dst@ == old(self).src_to_dst@.insert(t1, t2),
            r ==> final(self).dst_to_src@ == old(self).dst_to_src@.insert(t2, t1),
            !r ==> final(self).src_to_dst@ == old(self).src_to_dst@ && final(self).dst_to_src@
                == old(self).dst_to_src@,
    {
        if self.src_to_dst.contains_key(&t1) && self.dst_to_src.contains_key(&t2) {
            self.src_to_dst.insert(t1, t2);
            self.dst_to_src.insert(t2, t1);
            true
        } else {
            false
        }
    }
}

impl MappingStore for HashStore {
    open spec fn valid_src(&self, s: usize) -> bool {
        true
    }

    open spec fn valid_dst(&self, d: usize) -> bool {
        true
    }

    open spec fn is_src_spec(&self, s: usize) -> bool {
        self.src_to_dst@.contains_key(s)
    }

    open spec fn is_dst_spec(&self, d: usize) -> bool {
        self.dst_to_src@.contains_key(d)
    }

    /// Both directions hold the pair and agree on it.
    open spec fn has_spec(&self, s: usize, d: usize) -> bool {
        &&& self.src_to_dst@.contains_key(s)
        &&& self.src_to_dst@[s] == d
        &&& self.dst_to_src@.contains_key(d)
        &&& self.dst_to_src@[d] == s
    }

    open spec fn cap_spec(&self) -> (nat, nat) {
        (self.src_to_dst@.dom().len(), self.dst_to_src@.dom().len())
    }

    open spec fn len_spec(&self) -> nat {
        self.src_to_dst@.dom().len()
    }

    open spec fn topit_rel(pre: Self, post: Self, left: usize, right: usize) -> bool {
        post == pre
    }

    open spec fn link_rel(pre: Self, post: Self, s: usize, d: usize) -> bool {
        &&& post.src_to_dst@ == pre.src_to_dst@.insert(s, d)
        &&& post.dst_to_src@ == pre.dst_to_src@.insert(d, s)
    }

    open spec fn cut_rel(pre: Self, post: Self, s: usize, d: usize) -> bool {
        &&& post.src_to_dst@ == pre.src_to_dst@.remove(s)
        &&& post.dst_to_src@ == pre.dst_to_src@.remove(d)
    }

    /// Hash maps grow on demand; sizing ahead is a no-op.
    fn topit(&mut self, left: usize, right: usize) {
    }

    fn len(&self) -> (r: usize) {
        self.src_to_dst.len()
    }

    fn capacity(&self) -> (r: (usize, usize)) {
        (self.src_to_dst.len(), self.dst_to_src.len())
    }

    /// A pair is present exactly when the forward map sends `src` to `dst`
    /// and the backward map sends `dst` back to `src`.
    fn has(&self, src: usize, dst: usize) -> (r: bool) {
        let fwd = match self.src_to_dst.get(&src) {
            Some(v) => *v == dst,
            None => false,
        };
        let bwd = match self.dst_to_src.get(&dst) {
            Some(v) => *v == src,
            None => false,
        };
        fwd && bwd
    }

    fn link(&mut self, src: usize, dst: usize) {
        self.src_to_dst.insert(src, dst);
        self.dst_to_src.insert(dst, src);
    }

    fn cut(&mut self, src: usize, dst: usize) {
        self.src_to_dst.remove(&src);
        self.dst_to_src.remove(&dst);
    }

    fn is_src(&self, src: usize) -> (r: bool) {
        self.src_to_dst.contains_key(&src)
    }

    fn is_dst(&self, dst: usize) -> (r: bool) {
        self.dst_to_src.contains_key(&dst)
    }
}

impl MonoMappingStore for HashStore {
    open spec fn s2d(&self) -> Map<usize, usize> {
        self.src_to_dst@
    }

    open spec fn d2s(&self) -> Map<usize, usize> {
        self.dst_to_src@
    }

    proof fn lemma_reads(&self) {
    }

    proof fn lemma_link(pre: Self, post: Self, s: usize, d: usize) {
    }

    proof fn lemma_cut(pre: Self, post: Self, s: usize, d: usize) {
    }

    proof fn lemma_topit(pre: Self, post: Self, left: usize, right: usize) {
    }

    fn get_src_unchecked(&self, dst: usize) -> (r: usize) {
        *self.dst_to_src.get(&dst).unwrap()
    }

    fn get_dst_unchecked(&self, src: usize) -> (r: usize) {
        *self.src_to_dst.get(&src).unwrap()
    }

    fn get_src(&self, dst: usize) -> (r: Option<usize>) {
        match self.dst_to_src.get(&dst) {
            Some(v) => Some(*v),
            None => None,
        }
    }

    fn get_dst(&self, src: usize) -> (r: Option<usize>) {
        match self.src_to_dst.get(&src) {
            Some(v) => Some(*v),
            None => None,
        }
    }

    fn link_if_both_unmapped(&mut self, t1: usize, t2: usize) -> (r: bool) {
        if self.is_src(t1) && self.is_dst(t2) {
            self.link(t1, t2);
            true
        } else {
            false
        }
    }

    fn iter(&self) -> (r: Vec<(usize, usize)>) {
        self.iter()
    }
}

/// Counting non-zero slots never decreases as the scanned prefix grows.
proof fn lemma_nonzero_count_mono(s: Seq<usize>, i: int, j: int)
    requires
        i <= j,
    ensures
        nonzero_count(s, i) <= nonzero_count(s, j),
    decreases j - i,
{
    if i < j {
        lemma_nonzero_count_mono(s, i, j - 1);
    }
}

/// Set `v` to length `n`, keeping the prefix and filling new slots with `0`.
fn resize_with_zeros(v: &mut Vec<usize>, n: usize)
    ensures
        final(v)@.len() == n,
        forall|i: int|
            0 <= i < n ==> final(v)@[i] == (if i < old(v)@.len() {
                old(v)@[i]
            } else {
                0usize
            }),
{
    if v.len() > n {
        v.truncate(n);
    } else {
        while v.len() < n
            invariant
                v@.len() <= n,
                v@.len() >= old(v)@.len(),
                forall|i: int|
                    0 <= i < v@.len() ==> v@[i] == (if i < old(v)@.len() {
                        old(v)@[i]
                    } else {
                        0usize
                    }),
            decreases n - v@.len(),
        {
            v.push(0);
        }
    }
}

} // verus!
