//! Greedy bottom-up matcher.
//!
//! Walks the source tree in post-order; for every unmapped internal node
//! it gathers destination candidates of the same type that already share
//! a mapped descendant, scores them by Dice similarity over the current
//! mapping, and pairs the node with the best candidate at or above the
//! similarity threshold, ties going to the earliest destination index.
//! Each pairing, and finally the root pairing, is refined by a last-chance
//! Zhang–Shasha pass over the two subtrees when both are below the size
//! threshold.
//!
//! Similarities are compared as exact rationals: the threshold is the
//! fraction `sim_threshold_num / sim_threshold_den` and all comparisons
//! cross-multiply, so a Dice score exactly at the threshold is accepted.

use crate::decompressed::{decompress, DecompressedTree};
use crate::mapping_store::{MappingStore, MonoMappingStore};
use crate::tree_store::{labels_ok, store_wf, LabelStore, NodeStore};
use crate::zs;
use vstd::prelude::*;

verus! {

/// Tuning parameters of the matcher.
pub struct MatcherConfig {
    /// Last-chance pass only below this many nodes on both sides.
    pub size_threshold: usize,
    /// Numerator of the similarity threshold.
    pub sim_threshold_num: u64,
    /// Denominator of the similarity threshold.
    pub sim_threshold_den: u64,
    /// Reuse the built view through slicing, rather than rebuilding a
    /// fresh view per last-chance call.
    pub use_slice: bool,
}

impl MatcherConfig {
    pub open spec fn wf(&self) -> bool {
        &&& self.size_threshold >= 1
        &&& self.sim_threshold_den >= 1
    }
}

impl Default for MatcherConfig {
    /// The canonical parameters: a last-chance bound of `1000` nodes and a
    /// similarity threshold of one half, slicing enabled.
    fn default() -> (r: Self)
        ensures
            r.size_threshold == 1000,
            r.sim_threshold_num == 1,
            r.sim_threshold_den == 2,
            r.use_slice,
            r.wf(),
    {
        MatcherConfig {
            size_threshold: 1000,
            sim_threshold_num: 1,
            sim_threshold_den: 2,
            use_slice: true,
        }
    }
}

/// Both directions agree that `x` and `y` are each other's counterpart.
pub open spec fn pair(s2d: Map<usize, usize>, d2s: Map<usize, usize>, x: usize, y: usize) -> bool {
    &&& s2d.contains_key(x)
    &&& s2d[x] == y
    &&& d2s.contains_key(y)
    &&& d2s[y] == x
}

/// An agreed pair is exclusive on both sides, whatever store the two maps
/// came from.
pub proof fn lemma_pair_unique(
    s2d: Map<usize, usize>,
    d2s: Map<usize, usize>,
    x: usize,
    y: usize,
    x2: usize,
    y2: usize,
)
    requires
        pair(s2d, d2s, x, y),
    ensures
        pair(s2d, d2s, x, y2) ==> y2 == y,
        pair(s2d, d2s, x2, y) ==> x2 == x,
{
}

/// Every entry points below the two sizes.
pub open spec fn entries_bounded(
    s2d: Map<usize, usize>,
    d2s: Map<usize, usize>,
    n1: int,
    n2: int,
) -> bool {
    &&& forall|x: usize|
        #[trigger] s2d.contains_key(x) ==> (x as int) < n1 && (s2d[x] as int) < n2
    &&& forall|y: usize|
        #[trigger] d2s.contains_key(y) ==> (y as int) < n2 && (d2s[y] as int) < n1
}

/// The store can address every index below the two sizes.
pub open spec fn store_fits<M: MonoMappingStore>(m: &M, n1: int, n2: int) -> bool {
    &&& forall|x: usize| (x as int) < n1 ==> #[trigger] m.valid_src(x)
    &&& forall|y: usize| (y as int) < n2 ==> #[trigger] m.valid_dst(y)
}

/// Number of source indices in `[la, up)` that the mapping sends into the
/// destination range `[lc, c]`.
pub open spec fn common_upto(
    s2d: Map<usize, usize>,
    lc: int,
    c: int,
    la: int,
    up: int,
) -> nat
    decreases up - la,
{
    if up <= la {
        0
    } else {
        common_upto(s2d, lc, c, la, up - 1) + (if s2d.contains_key(((up - 1) as usize)) && lc <= (
        s2d[((up - 1) as usize)] as int) <= c {
            1nat
        } else {
            0nat
        })
    }
}

/// The Dice numerator/denominator comparison against the threshold
/// `num / den`: `2·common / (da + dc) >= num / den`, cross-multiplied.
pub open spec fn meets_threshold(common: int, da: int, dc: int, num: int, den: int) -> bool {
    2 * common * den >= num * (da + dc)
}

/// `2·c1 / (da + d1) > 2·c2 / (da + d2)`, cross-multiplied.
pub open spec fn dice_gt(c1: int, d1: int, c2: int, d2: int, da: int) -> bool {
    c1 * (da + d2) > c2 * (da + d1)
}

/// Type of the node with external id `id`.
pub open spec fn spec_ty(s: &NodeStore, id: usize) -> u32 {
    s.nodes@[id as int].ty
}

fn node_ty(s: &NodeStore, id: usize) -> (r: u32)
    requires
        id < s.nodes@.len(),
    ensures
        r == spec_ty(s, id),
{
    s.resolve(id).ty
}

/// Counts the mapped descendants of the source range `[la, a]` that land
/// inside the destination range `[lc, c]`.
fn count_common<M: MonoMappingStore>(m: &M, la: usize, a: usize, lc: usize, c: usize) -> (r:
    usize)
    requires
        la <= a,
        a < usize::MAX,
    ensures
        r == common_upto(m.s2d(), lc as int, c as int, la as int, a as int + 1),
        r <= a - la + 1,
{
    let mut r: usize = 0;
    let mut x = la;
    while x <= a
        invariant
            la <= x,
            x <= a + 1,
            a < usize::MAX,
            r == common_upto(m.s2d(), lc as int, c as int, la as int, x as int),
            r <= x - la,
        decreases a + 1 - x,
    {
        match m.get_dst(x) {
            Some(d) => {
                if lc <= d && d <= c {
                    r += 1;
                }
            },
            None => {},
        }
        x += 1;
    }
    r
}

/// A destination node qualifies as a candidate for the source node `a`
/// when it has `a`'s type, is itself unmapped, and one of `a`'s
/// descendants is already mapped into its own descendant range.
pub open spec fn is_candidate(
    s: &NodeStore,
    src_arena: &DecompressedTree,
    dst_arena: &DecompressedTree,
    s2d: Map<usize, usize>,
    d2s: Map<usize, usize>,
    a: int,
    c: int,
) -> bool {
    &&& 0 <= c < dst_arena.original@.len()
    &&& spec_ty(s, dst_arena.original@[c]) == spec_ty(s, src_arena.original@[a])
    &&& !d2s.contains_key(c as usize)
    &&& exists|x: usize|
        src_arena.lld@[a] <= x as int <= a && #[trigger] s2d.contains_key(x) && dst_arena.lld@[c]
            <= (s2d[x] as int) <= c
}

/// Whether some source index in `[la, a]` maps into `[lc, c]`.
fn has_mapped_desc_in<M: MonoMappingStore>(
    m: &M,
    la: usize,
    a: usize,
    lc: usize,
    c: usize,
) -> (r: bool)
    requires
        la <= a,
        a < usize::MAX,
    ensures
        r == exists|x: usize|
            la as int <= x as int <= a as int && #[trigger] m.s2d().contains_key(x) && lc as int
                <= (m.s2d()[x] as int) <= c as int,
{
    let mut x = la;
    while x <= a
        invariant
            la <= x,
            x <= a + 1,
            a < usize::MAX,
            forall|y: usize|
                la as int <= y as int && (y as int) < x as int ==> !(#[trigger] m.s2d().contains_key(y) && lc
                    as int <= (m.s2d()[y] as int) <= c as int),
        decreases a + 1 - x,
    {
        match m.get_dst(x) {
            Some(d) => {
                if lc <= d && d <= c {
                    return true;
                }
            },
            None => {},
        }
        x += 1;
    }
    false
}

/// The ascending list of destination candidates for the source node `a`.
fn get_dst_candidates<M: MonoMappingStore>(
    s: &NodeStore,
    src_arena: &DecompressedTree,
    dst_arena: &DecompressedTree,
    m: &M,
    a: usize,
) -> (r: Vec<usize>)
    requires
        store_wf(s),
        src_arena.wf(),
        dst_arena.wf(),
        zs::ids_in(src_arena, s),
        zs::ids_in(dst_arena, s),
        (a as int) < src_arena.original@.len(),
        src_arena.original@.len() < usize::MAX,
        dst_arena.original@.len() < usize::MAX,
        store_fits(m, src_arena.original@.len() as int, dst_arena.original@.len() as int),
    ensures
        forall|c: usize| #[trigger]
            r@.contains(c) <==> is_candidate(
                s,
                src_arena,
                dst_arena,
                m.s2d(),
                m.d2s(),
                a as int,
                c as int,
            ),
        forall|k: int, l: int| 0 <= k < l < r@.len() ==> r@[k] < r@[l],
    {
    let n2 = dst_arena.len();
    let la = src_arena.first_descendant(a);
    let ty_a = node_ty(s, src_arena.original(a));
    let mut r: Vec<usize> = Vec::new();
    let mut c: usize = 0;
    proof {
        m.lemma_reads();
    }
    while c < n2
        invariant
            store_wf(s),
            src_arena.wf(),
            dst_arena.wf(),
            zs::ids_in(src_arena, s),
            zs::ids_in(dst_arena, s),
            (a as int) < src_arena.original@.len(),
            src_arena.original@.len() < usize::MAX,
            dst_arena.original@.len() < usize::MAX,
            store_fits(m, src_arena.original@.len() as int, dst_arena.original@.len() as int),
            c <= n2,
            n2 == dst_arena.original@.len(),
            la == src_arena.lld@[a as int],
            ty_a == spec_ty(s, src_arena.original@[a as int]),
            forall|y: usize| #[trigger]
                r@.contains(y) <==> (y as int) < c && is_candidate(
                    s,
                    src_arena,
                    dst_arena,
                    m.s2d(),
                    m.d2s(),
                    a as int,
                    y as int,
                ),
            forall|k: int, l: int| 0 <= k < l < r@.len() ==> r@[k] < r@[l],
            forall|k: int| 0 <= k < r@.len() ==> (#[trigger] r@[k]) < c,
        decreases n2 - c,
    {
        proof {
            m.lemma_reads();
        }
        let ty_c = node_ty(s, dst_arena.original(c));
        let mut ok = false;
        if ty_c == ty_a && !m.is_dst(c) {
            let lc = dst_arena.first_descendant(c);
            ok = has_mapped_desc_in(m, la, a, lc, c);
        }
        let ghost prev = r@;
        if ok {
            r.push(c);
        }
        proof {
            assert forall|y: usize| #[trigger]
                r@.contains(y) implies (y as int) < c + 1 && is_candidate(
                s,
                src_arena,
                dst_arena,
                m.s2d(),
                m.d2s(),
                a as int,
                y as int,
            ) by {
                let k = choose|k: int| 0 <= k < r@.len() && r@[k] == y;
                if k < prev.len() {
                    assert(prev[k] == y);
                    assert(prev.contains(y));
                } else {
                    assert(y == c);
                }
            }
            assert forall|y: usize|
                (y as int) < c + 1 && is_candidate(
                    s,
                    src_arena,
                    dst_arena,
                    m.s2d(),
                    m.d2s(),
                    a as int,
                    y as int,
                ) implies #[trigger] r@.contains(y) by {
                if (y as int) < c {
                    assert(prev.contains(y));
                    let k = choose|k: int| 0 <= k < prev.len() && prev[k] == y;
                    assert(r@[k] == y);
                } else {
                    assert(y == c);
                    assert(ok);
                    assert(r@[r@.len() - 1] == y);
                }
            }
        }
        c += 1;
    }
    r
}

/// Mapped-descendant count of the pair `(a, c)` over the current forward
/// map, as the Dice numerator's half.
pub open spec fn spec_common(
    s2d: Map<usize, usize>,
    src_arena: &DecompressedTree,
    dst_arena: &DecompressedTree,
    a: int,
    c: int,
) -> int {
    common_upto(
        s2d,
        dst_arena.lld@[c] as int,
        c,
        src_arena.lld@[a] as int,
        a + 1,
    ) as int
}

/// Size of the subtree of `v`, the node included.
pub open spec fn dsize(t: &DecompressedTree, v: int) -> int {
    v - t.lld@[v] + 1
}

/// A product of bounded factors is bounded by the product of the bounds.
proof fn lemma_mul_le(x: int, y: int, bx: int, byy: int)
    by (nonlinear_arith)
    requires
        0 <= x <= bx,
        0 <= y <= byy,
    ensures
        x * y <= bx * byy,
{
}

/// Rational comparison is transitive across a shared maximum: whatever is
/// not above the old best stays strictly below anything above it.
proof fn lemma_dice_trans(c1: int, a1: int, c2: int, a2: int, c3: int, a3: int)
    by (nonlinear_arith)
    requires
        a1 > 0,
        a2 > 0,
        a3 > 0,
        c1 >= 0,
        c2 >= 0,
        c3 >= 0,
        c1 * a2 <= c2 * a1,
        c3 * a2 > c2 * a3,
    ensures
        c3 * a1 > c1 * a3,
{
}

/// The best-scoring candidate at or above the threshold, earliest
/// destination index first on ties; `None` when no candidate reaches the
/// threshold.
fn best_candidate<M: MonoMappingStore>(
    src_arena: &DecompressedTree,
    dst_arena: &DecompressedTree,
    m: &M,
    a: usize,
    cands: &Vec<usize>,
    num: u64,
    den: u64,
) -> (r: Option<usize>)
    requires
        src_arena.wf(),
        dst_arena.wf(),
        (a as int) < src_arena.original@.len(),
        src_arena.original@.len() <= u32::MAX,
        dst_arena.original@.len() <= u32::MAX,
        forall|k: int|
            0 <= k < cands@.len() ==> ((#[trigger] cands@[k]) as int) < dst_arena.original@.len(),
        forall|k: int, l: int| 0 <= k < l < cands@.len() ==> cands@[k] < cands@[l],
    ensures
        ({
            let da = dsize(src_arena, a as int);
            match r {
                None => forall|k: int|
                    0 <= k < cands@.len() ==> !meets_threshold(
                        spec_common(m.s2d(), src_arena, dst_arena, a as int, (#[trigger] cands@[k]) as int),
                        da,
                        dsize(dst_arena, cands@[k] as int),
                        num as int,
                        den as int,
                    ),
                Some(b) => {
                    let cb = spec_common(m.s2d(), src_arena, dst_arena, a as int, b as int);
                    let db = dsize(dst_arena, b as int);
                    &&& cands@.contains(b)
                    &&& meets_threshold(cb, da, db, num as int, den as int)
                    &&& forall|k: int|
                        0 <= k < cands@.len() && meets_threshold(
                            spec_common(m.s2d(), src_arena, dst_arena, a as int, (#[trigger] cands@[k]) as int),
                            da,
                            dsize(dst_arena, cands@[k] as int),
                            num as int,
                            den as int,
                        ) ==> !dice_gt(
                            spec_common(m.s2d(), src_arena, dst_arena, a as int, cands@[k] as int),
                            dsize(dst_arena, cands@[k] as int),
                            cb,
                            db,
                            da,
                        )
                    &&& forall|k: int|
                        0 <= k < cands@.len() && (#[trigger] cands@[k]) != b && meets_threshold(
                            spec_common(m.s2d(), src_arena, dst_arena, a as int, cands@[k] as int),
                            da,
                            dsize(dst_arena, cands@[k] as int),
                            num as int,
                            den as int,
                        ) && !dice_gt(
                            cb,
                            db,
                            spec_common(m.s2d(), src_arena, dst_arena, a as int, cands@[k] as int),
                            dsize(dst_arena, cands@[k] as int),
                            da,
                        ) ==> b < cands@[k]
                },
            }
        }),
{
    let la = src_arena.first_descendant(a);
    let da = a - la + 1;
    let n = cands.len();
    let mut best: Option<usize> = None;
    let mut bc: usize = 0;
    let mut bdc: usize = 0;
    let ghost mut kb: int = 0;
    let mut i: usize = 0;
    while i < n
        invariant
            src_arena.wf(),
            dst_arena.wf(),
            (a as int) < src_arena.original@.len(),
            src_arena.original@.len() <= u32::MAX,
            dst_arena.original@.len() <= u32::MAX,
            forall|k: int|
                0 <= k < cands@.len() ==> ((#[trigger] cands@[k]) as int) < dst_arena.original@.len(),
            forall|k: int, l: int| 0 <= k < l < cands@.len() ==> cands@[k] < cands@[l],
            i <= n,
            n == cands@.len(),
            la == src_arena.lld@[a as int],
            da == dsize(src_arena, a as int),
            da >= 1,
            bc <= 0xFFFF_FFFFusize,
            bdc <= 0xFFFF_FFFFusize,
            best is None ==> forall|k: int|
                0 <= k < i ==> !meets_threshold(
                    spec_common(m.s2d(), src_arena, dst_arena, a as int, (#[trigger] cands@[k]) as int),
                    da as int,
                    dsize(dst_arena, cands@[k] as int),
                    num as int,
                    den as int,
                ),
            best matches Some(b) ==> {
                let cb = spec_common(m.s2d(), src_arena, dst_arena, a as int, b as int);
                let db = dsize(dst_arena, b as int);
                &&& 0 <= kb < i
                &&& cands@[kb] == b
                &&& bc as int == cb
                &&& bdc as int == db
                &&& bdc >= 1
                &&& bc as int <= da
                &&& meets_threshold(cb, da as int, db, num as int, den as int)
                &&& forall|k: int|
                    0 <= k < i && meets_threshold(
                        spec_common(m.s2d(), src_arena, dst_arena, a as int, (#[trigger] cands@[k]) as int),
                        da as int,
                        dsize(dst_arena, cands@[k] as int),
                        num as int,
                        den as int,
                    ) ==> !dice_gt(
                        spec_common(m.s2d(), src_arena, dst_arena, a as int, cands@[k] as int),
                        dsize(dst_arena, cands@[k] as int),
                        cb,
                        db,
                        da as int,
                    )
                &&& forall|k: int|
                    0 <= k < i && (#[trigger] cands@[k]) != b && meets_threshold(
                        spec_common(m.s2d(), src_arena, dst_arena, a as int, cands@[k] as int),
                        da as int,
                        dsize(dst_arena, cands@[k] as int),
                        num as int,
                        den as int,
                    ) && !dice_gt(
                        cb,
                        db,
                        spec_common(m.s2d(), src_arena, dst_arena, a as int, cands@[k] as int),
                        dsize(dst_arena, cands@[k] as int),
                        da as int,
                    ) ==> b < cands@[k]
            },
        decreases n - i,
    {
        let c = cands[i];
        let lc = dst_arena.first_descendant(c);
        let common = count_common(m, la, a, lc, c);
        let dc = c - lc + 1;
        proof {
            assert(cands@.contains(cands@[i as int]));
        }
        proof {
            lemma_mul_le(2 * (common as int), den as int, 0x2_0000_0000, 0xFFFF_FFFF_FFFF_FFFF);
            lemma_mul_le(num as int, (da as int) + (dc as int), 0xFFFF_FFFF_FFFF_FFFF, 0x2_0000_0000);
            lemma_mul_le(common as int, (da as int) + (bdc as int), 0x1_0000_0000, 0x2_0000_0000);
            lemma_mul_le(bc as int, (da as int) + (dc as int), 0x1_0000_0000, 0x2_0000_0000);
        }
        let meets = 2u128 * (common as u128) * (den as u128) >= (num as u128) * ((da as u128)
            + (dc as u128));
        let better = match best {
            None => true,
            Some(_) => (common as u128) * ((da as u128) + (bdc as u128)) > (bc as u128) * ((
            da as u128) + (dc as u128)),
        };
        if meets && better {
            proof {
                if best is Some {
                    let b0 = best->Some_0;
                    let cb0 = spec_common(m.s2d(), src_arena, dst_arena, a as int, b0 as int);
                    let db0 = dsize(dst_arena, b0 as int);
                    assert forall|k: int|
                        0 <= k < i && meets_threshold(
                            spec_common(m.s2d(), src_arena, dst_arena, a as int, (#[trigger] cands@[k]) as int),
                            da as int,
                            dsize(dst_arena, cands@[k] as int),
                            num as int,
                            den as int,
                        ) implies dice_gt(
                        common as int,
                        dc as int,
                        spec_common(m.s2d(), src_arena, dst_arena, a as int, cands@[k] as int),
                        dsize(dst_arena, cands@[k] as int),
                        da as int,
                    ) by {
                        let ck = spec_common(m.s2d(), src_arena, dst_arena, a as int, cands@[k] as int);
                        let dk = dsize(dst_arena, cands@[k] as int);
                        lemma_dice_trans(
                            ck,
                            da as int + dk,
                            cb0,
                            da as int + db0,
                            common as int,
                            da as int + dc as int,
                        );
                    }
                }
            }
            best = Some(c);
            bc = common;
            bdc = dc;
            proof {
                kb = i as int;
            }
        } else {
            proof {
                if meets {
                    assert(best is Some);
                    let b0 = best->Some_0;
                    assert(cands@[kb] == b0);
                    assert(cands@[kb] < cands@[i as int]);
                }
            }
        }
        i += 1;
    }
    best
}

/// The candidate the greedy step accepts for `a` in the given state: a
/// candidate at or above the threshold that no candidate strictly beats,
/// standing before every candidate that ties with it.
pub open spec fn spec_is_best(
    s: &NodeStore,
    src_arena: &DecompressedTree,
    dst_arena: &DecompressedTree,
    s2d: Map<usize, usize>,
    d2s: Map<usize, usize>,
    a: int,
    c: int,
    num: int,
    den: int,
) -> bool {
    let da = dsize(src_arena, a);
    &&& is_candidate(s, src_arena, dst_arena, s2d, d2s, a, c)
    &&& meets_threshold(
        spec_common(s2d, src_arena, dst_arena, a, c),
        da,
        dsize(dst_arena, c),
        num,
        den,
    )
    &&& forall|c2: int|
        #[trigger] is_candidate(s, src_arena, dst_arena, s2d, d2s, a, c2) && meets_threshold(
            spec_common(s2d, src_arena, dst_arena, a, c2),
            da,
            dsize(dst_arena, c2),
            num,
            den,
        ) ==> !dice_gt(
            spec_common(s2d, src_arena, dst_arena, a, c2),
            dsize(dst_arena, c2),
            spec_common(s2d, src_arena, dst_arena, a, c),
            dsize(dst_arena, c),
            da,
        )
    &&& forall|c2: int|
        c2 < c && #[trigger] is_candidate(s, src_arena, dst_arena, s2d, d2s, a, c2)
            && meets_threshold(
            spec_common(s2d, src_arena, dst_arena, a, c2),
            da,
            dsize(dst_arena, c2),
            num,
            den,
        ) ==> dice_gt(
            spec_common(s2d, src_arena, dst_arena, a, c),
            dsize(dst_arena, c),
            spec_common(s2d, src_arena, dst_arena, a, c2),
            dsize(dst_arena, c2),
            da,
        )
}

/// Some candidate is accepted for `a` in the given state.
pub open spec fn spec_has_best(
    s: &NodeStore,
    src_arena: &DecompressedTree,
    dst_arena: &DecompressedTree,
    s2d: Map<usize, usize>,
    d2s: Map<usize, usize>,
    a: int,
    num: int,
    den: int,
) -> bool {
    exists|c: int| spec_is_best(s, src_arena, dst_arena, s2d, d2s, a, c, num, den)
}

/// The accepted candidate; well defined because it is unique.
pub open spec fn spec_best(
    s: &NodeStore,
    src_arena: &DecompressedTree,
    dst_arena: &DecompressedTree,
    s2d: Map<usize, usize>,
    d2s: Map<usize, usize>,
    a: int,
    num: int,
    den: int,
) -> int {
    choose|c: int| spec_is_best(s, src_arena, dst_arena, s2d, d2s, a, c, num, den)
}

/// Two accepted candidates coincide: a later one would have to beat the
/// earlier strictly and be unbeaten by it at once.
pub proof fn lemma_best_unique(
    s: &NodeStore,
    src_arena: &DecompressedTree,
    dst_arena: &DecompressedTree,
    s2d: Map<usize, usize>,
    d2s: Map<usize, usize>,
    a: int,
    c1: int,
    c2: int,
    num: int,
    den: int,
)
    requires
        spec_is_best(s, src_arena, dst_arena, s2d, d2s, a, c1, num, den),
        spec_is_best(s, src_arena, dst_arena, s2d, d2s, a, c2, num, den),
    ensures
        c1 == c2,
{
    if c1 < c2 {
        assert(is_candidate(s, src_arena, dst_arena, s2d, d2s, a, c1));
        assert(false);
    }
    if c2 < c1 {
        assert(is_candidate(s, src_arena, dst_arena, s2d, d2s, a, c2));
        assert(false);
    }
}

/// The state change of one accepted greedy step: merge the given optimal
/// pair list for the two subtrees, then link `(a, b)` over whatever the
/// merge left in either slot.
pub open spec fn merge_then_link_ok(
    s: &NodeStore,
    src_arena: &DecompressedTree,
    dst_arena: &DecompressedTree,
    cfg: &MatcherConfig,
    pre: (Map<usize, usize>, Map<usize, usize>),
    post: (Map<usize, usize>, Map<usize, usize>),
    a: int,
    b: int,
    ps: Seq<(usize, usize)>,
) -> bool {
    let mid = merge_fold(
        s,
        src_arena,
        dst_arena,
        pre,
        src_arena.lld@[a] as int,
        dst_arena.lld@[b] as int,
        ps,
        ps.len() as int,
    );
    &&& forall|k: int|
        0 <= k < ps.len() ==> ((#[trigger] ps[k]).0 as int) < dsize(src_arena, a) && ((
        ps[k]).1 as int) < dsize(dst_arena, b)
    &&& !(dsize(src_arena, a) < cfg.size_threshold && dsize(dst_arena, b) < cfg.size_threshold)
        ==> ps.len() == 0
    &&& post.0 == mid.0.insert(a as usize, b as usize)
    &&& post.1 == mid.1.insert(b as usize, a as usize)
}

/// One turn of the bottom-up pass over source node `a`: the turn is a
/// no-op on the root, on an already-mapped node, on a leaf, and when no
/// candidate is accepted; otherwise it merges some optimal-pass pair list
/// and links `a` with the accepted candidate.
pub open spec fn exec_step(
    s: &NodeStore,
    src_arena: &DecompressedTree,
    dst_arena: &DecompressedTree,
    cfg: &MatcherConfig,
    pre: (Map<usize, usize>, Map<usize, usize>),
    post: (Map<usize, usize>, Map<usize, usize>),
    a: int,
) -> bool {
    let n1 = src_arena.original@.len() as int;
    let num = cfg.sim_threshold_num as int;
    let den = cfg.sim_threshold_den as int;
    if a == n1 - 1 || pre.0.contains_key(a as usize) || src_arena.lld@[a] == a || !spec_has_best(
        s,
        src_arena,
        dst_arena,
        pre.0,
        pre.1,
        a,
        num,
        den,
    ) {
        post == pre
    } else {
        let b = spec_best(s, src_arena, dst_arena, pre.0, pre.1, a, num, den);
        exists|ps: Seq<(usize, usize)>| #[trigger]
            merge_then_link_ok(s, src_arena, dst_arena, cfg, pre, post, a, b, ps)
    }
}

/// The closing stage of the pass: the roots are linked over whatever held
/// either slot, then refined by one last merge over the whole trees.
pub open spec fn root_stage_ok(
    s: &NodeStore,
    src_arena: &DecompressedTree,
    dst_arena: &DecompressedTree,
    cfg: &MatcherConfig,
    pre: (Map<usize, usize>, Map<usize, usize>),
    post: (Map<usize, usize>, Map<usize, usize>),
    ps: Seq<(usize, usize)>,
) -> bool {
    let rs = src_arena.original@.len() - 1;
    let rd = dst_arena.original@.len() - 1;
    let linked = (pre.0.insert(rs as usize, rd as usize), pre.1.insert(rd as usize, rs as usize));
    let mid = merge_fold(
        s,
        src_arena,
        dst_arena,
        linked,
        src_arena.lld@[rs as int] as int,
        dst_arena.lld@[rd as int] as int,
        ps,
        ps.len() as int,
    );
    &&& forall|k: int|
        0 <= k < ps.len() ==> ((#[trigger] ps[k]).0 as int) < dsize(src_arena, rs as int) && ((
        ps[k]).1 as int) < dsize(dst_arena, rd as int)
    &&& !(dsize(src_arena, rs as int) < cfg.size_threshold && dsize(dst_arena, rd as int)
        < cfg.size_threshold) ==> ps.len() == 0
    &&& post == mid
}

/// A modeling view only mentions ids the store resolves.
pub proof fn lemma_models_ids_in(s: &NodeStore, t: &DecompressedTree, root: usize)
    requires
        store_wf(s),
        (root as int) < s.nodes@.len(),
        t.models(s, root),
    ensures
        zs::ids_in(t, s),
{
    crate::tree_store::lemma_po_facts(s, root as int);
}

/// One merge step of the last-chance pass: the local pair `p`, translated
/// by the two subtree offsets, is linked exactly when both global indices
/// are still unmapped and the node types agree; otherwise the state is
/// untouched.
pub open spec fn merge_step(
    s: &NodeStore,
    src_arena: &DecompressedTree,
    dst_arena: &DecompressedTree,
    st: (Map<usize, usize>, Map<usize, usize>),
    so: int,
    doff: int,
    p: (usize, usize),
) -> (Map<usize, usize>, Map<usize, usize>) {
    let sp = (so + p.0) as usize;
    let dp = (doff + p.1) as usize;
    if !st.0.contains_key(sp) && !st.1.contains_key(dp) && spec_ty(
        s,
        src_arena.original@[sp as int],
    ) == spec_ty(s, dst_arena.original@[dp as int]) {
        (st.0.insert(sp, dp), st.1.insert(dp, sp))
    } else {
        st
    }
}

/// The merge of the first `k` local pairs, in order.
pub open spec fn merge_fold(
    s: &NodeStore,
    src_arena: &DecompressedTree,
    dst_arena: &DecompressedTree,
    st: (Map<usize, usize>, Map<usize, usize>),
    so: int,
    doff: int,
    ps: Seq<(usize, usize)>,
    k: int,
) -> (Map<usize, usize>, Map<usize, usize>)
    decreases k,
{
    if k <= 0 {
        st
    } else {
        merge_step(
            s,
            src_arena,
            dst_arena,
            merge_fold(s, src_arena, dst_arena, st, so, doff, ps, k - 1),
            so,
            doff,
            ps[k - 1],
        )
    }
}

/// `post` extends `pre` by pairs confined to the subtree pair
/// `([lld(src), src], [lld(dst), dst])`, every added pair type-equal and
/// coherent in both directions; nothing is removed or overwritten.
pub open spec fn extends_within<M: MonoMappingStore>(
    pre: &M,
    post: &M,
    s: &NodeStore,
    src_arena: &DecompressedTree,
    dst_arena: &DecompressedTree,
    src: int,
    dst: int,
) -> bool {
    &&& forall|x: usize| #[trigger]
        pre.s2d().contains_key(x) ==> post.s2d().contains_key(x) && post.s2d()[x] == pre.s2d()[x]
    &&& forall|y: usize| #[trigger]
        pre.d2s().contains_key(y) ==> post.d2s().contains_key(y) && post.d2s()[y] == pre.d2s()[y]
    &&& forall|x: usize| #[trigger]
        post.s2d().contains_key(x) && !pre.s2d().contains_key(x) ==> src_arena.lld@[src] <= x as int
            <= src && dst_arena.lld@[dst] <= (post.s2d()[x] as int) <= dst
            && post.d2s().contains_key(post.s2d()[x]) && post.d2s()[post.s2d()[x]] == x
            && !pre.d2s().contains_key(post.s2d()[x]) && spec_ty(
            s,
            src_arena.original@[x as int],
        ) == spec_ty(s, dst_arena.original@[post.s2d()[x] as int])
    &&& forall|y: usize| #[trigger]
        post.d2s().contains_key(y) && !pre.d2s().contains_key(y) ==> dst_arena.lld@[dst] <= y as int
            <= dst && src_arena.lld@[src] <= (post.d2s()[y] as int) <= src
            && post.s2d().contains_key(post.d2s()[y]) && post.s2d()[post.d2s()[y]] == y
            && !pre.s2d().contains_key(post.d2s()[y])
}

/// Refine the pair `(src, dst)` through the optimal matcher: when both
/// subtrees are below the size threshold, run the Zhang–Shasha pass over
/// them and merge each local pair back, linking it only when both global
/// indices are still unmapped and their types agree.  At or above the
/// threshold on either side, do nothing.
///
/// The returned ghost sequence is the local pair list the optimal pass
/// produced, in merge order; the new state is pinned to be exactly the
/// fold of `merge_step` over it, so nothing but that merge happens here.
pub fn last_chance_match_zs<M: MonoMappingStore>(
    s: &NodeStore,
    ls: &LabelStore,
    cfg: &MatcherConfig,
    src_arena: &DecompressedTree,
    dst_arena: &DecompressedTree,
    m: &mut M,
    src: usize,
    dst: usize,
    g_src_root: Ghost<usize>,
    g_dst_root: Ghost<usize>,
) -> (zs_pairs: Ghost<Seq<(usize, usize)>>)
    requires
        store_wf(s),
        labels_ok(s, ls),
        s.nodes@.len() <= usize::MAX,
        src_arena.wf(),
        dst_arena.wf(),
        (g_src_root@ as int) < s.nodes@.len(),
        (g_dst_root@ as int) < s.nodes@.len(),
        src_arena.models(s, g_src_root@),
        dst_arena.models(s, g_dst_root@),
        (src as int) < src_arena.original@.len(),
        (dst as int) < dst_arena.original@.len(),
        src_arena.original@.len() < 0xFFFF_FFFFusize,
        dst_arena.original@.len() < 0xFFFF_FFFFusize,
        store_fits(old(m), src_arena.original@.len() as int, dst_arena.original@.len() as int),
    ensures
        extends_within(old(m), final(m), s, src_arena, dst_arena, src as int, dst as int),
        forall|x: usize| #[trigger] final(m).valid_src(x) == old(m).valid_src(x),
        forall|y: usize| #[trigger] final(m).valid_dst(y) == old(m).valid_dst(y),
        !(dsize(src_arena, src as int) < cfg.size_threshold && dsize(dst_arena, dst as int)
            < cfg.size_threshold) ==> *final(m) == *old(m) && zs_pairs@ == Seq::<(
            usize,
            usize,
        )>::empty(),
        forall|k: int|
            0 <= k < zs_pairs@.len() ==> ((#[trigger] zs_pairs@[k]).0 as int) < dsize(
                src_arena,
                src as int,
            ) && ((zs_pairs@[k]).1 as int) < dsize(dst_arena, dst as int),
        (final(m).s2d(), final(m).d2s()) == merge_fold(
            s,
            src_arena,
            dst_arena,
            (old(m).s2d(), old(m).d2s()),
            src_arena.lld@[src as int] as int,
            dst_arena.lld@[dst as int] as int,
            zs_pairs@,
            zs_pairs@.len() as int,
        ),
{
    let ghost mut zsp: Seq<(usize, usize)> = Seq::empty();
    let src_offset = src_arena.first_descendant(src);
    let dst_offset = dst_arena.first_descendant(dst);
    let src_s = src_arena.descendants_count(src);
    let dst_s = dst_arena.descendants_count(dst);
    if src_s < cfg.size_threshold && dst_s < cfg.size_threshold {
        proof {
            crate::decompressed::lemma_slice_po_models(s, src_arena, g_src_root@, src as int);
            crate::decompressed::lemma_slice_po_models(s, dst_arena, g_dst_root@, dst as int);
            lemma_models_ids_in(s, src_arena, g_src_root@);
            lemma_models_ids_in(s, dst_arena, g_dst_root@);
            crate::tree_store::lemma_po_facts(s, src_arena.original@[src as int] as int);
            crate::tree_store::lemma_po_facts(s, dst_arena.original@[dst as int] as int);
        }
        let zs_src: DecompressedTree;
        let zs_dst: DecompressedTree;
        if cfg.use_slice {
            zs_src = src_arena.slice_po(src);
            zs_dst = dst_arena.slice_po(dst);
        } else {
            let o_src = src_arena.original(src);
            let o_dst = dst_arena.original(dst);
            zs_src = decompress(s, o_src);
            zs_dst = decompress(s, o_dst);
        }
        proof {
            assert(zs_src.original@.len() == src_s);
            assert(zs_dst.original@.len() == dst_s);
            assert forall|j: int|
                0 <= j < zs_src.original@.len() implies ((#[trigger] zs_src.original@[j]) as int)
                < s.nodes@.len() by {
                if cfg.use_slice {
                    assert(zs_src.original@[j] == src_arena.original@[src_arena.lld@[src as int]
                        + j]);
                }
            }
            assert forall|j: int|
                0 <= j < zs_dst.original@.len() implies ((#[trigger] zs_dst.original@[j]) as int)
                < s.nodes@.len() by {
                if cfg.use_slice {
                    assert(zs_dst.original@[j] == dst_arena.original@[dst_arena.lld@[dst as int]
                        + j]);
                }
            }
        }
        let local = zs::match_with(s, ls, &zs_src, &zs_dst);
        let pairs = local.iter();
        proof {
            assert forall|k: int|
                0 <= k < pairs@.len() implies ((#[trigger] pairs@[k]).0 as int) < src_s as int
                && (pairs@[k].1 as int) < dst_s as int by {
                assert(pairs@.contains(pairs@[k]));
            }
        }
        proof {
            zsp = pairs@;
        }
        let np = pairs.len();
        let mut t: usize = 0;
        while t < np
            invariant
                zsp == pairs@,
                (m.s2d(), m.d2s()) == merge_fold(
                    s,
                    src_arena,
                    dst_arena,
                    (old(m).s2d(), old(m).d2s()),
                    src_arena.lld@[src as int] as int,
                    dst_arena.lld@[dst as int] as int,
                    pairs@,
                    t as int,
                ),
                store_wf(s),
                labels_ok(s, ls),
                src_arena.wf(),
                dst_arena.wf(),
                zs::ids_in(src_arena, s),
                zs::ids_in(dst_arena, s),
                (src as int) < src_arena.original@.len(),
                (dst as int) < dst_arena.original@.len(),
                src_arena.original@.len() < 0xFFFF_FFFFusize,
                dst_arena.original@.len() < 0xFFFF_FFFFusize,
                src_offset == src_arena.lld@[src as int],
                dst_offset == dst_arena.lld@[dst as int],
                src_s == dsize(src_arena, src as int),
                dst_s == dsize(dst_arena, dst as int),
                t <= np,
                np == pairs@.len(),
                forall|k: int|
                    0 <= k < pairs@.len() ==> ((#[trigger] pairs@[k]).0 as int) < src_s as int && (
                    pairs@[k].1 as int) < dst_s as int,
                store_fits(m, src_arena.original@.len() as int, dst_arena.original@.len() as int),
                extends_within(old(m), m, s, src_arena, dst_arena, src as int, dst as int),
                forall|x: usize| #[trigger] m.valid_src(x) == old(m).valid_src(x),
                forall|y: usize| #[trigger] m.valid_dst(y) == old(m).valid_dst(y),
            decreases np - t,
        {
            proof {
                m.lemma_reads();
            }
            let (x, y) = pairs[t];
            let sp = src_offset + x;
            let dp = dst_offset + y;
            let ghost st_pre = (m.s2d(), m.d2s());
            if !m.is_src(sp) && !m.is_dst(dp) {
                let tsrc = node_ty(s, src_arena.original(sp));
                let tdst = node_ty(s, dst_arena.original(dp));
                if tsrc == tdst {
                    let ghost pre = *m;
                    m.link(sp, dp);
                    proof {
                        M::lemma_link(pre, *m, sp, dp);
                    }
                }
            }
            proof {
                let so = src_arena.lld@[src as int] as int;
                let doff = dst_arena.lld@[dst as int] as int;
                assert((so + pairs@[t as int].0) as usize == sp);
                assert((doff + pairs@[t as int].1) as usize == dp);
                assert((m.s2d(), m.d2s()) == merge_step(
                    s,
                    src_arena,
                    dst_arena,
                    st_pre,
                    so,
                    doff,
                    pairs@[t as int],
                ));
            }
            t += 1;
        }
    }
    Ghost(zsp)
}

/// The full bottom-up pass: pairs unmapped internal source nodes with
/// their best candidates, then pairs the two roots, refining each pairing
/// through the last-chance match.
///
/// The contract records what the pass guarantees for every input: the two
/// roots end up paired; a pre-existing pair not involving either root is
/// never unlinked; every pair the pass adds, other than the root pair, is
/// between nodes of the same type; and every entry stays inside the two
/// trees.
pub fn execute<M: MonoMappingStore>(
    s: &NodeStore,
    ls: &LabelStore,
    cfg: &MatcherConfig,
    src_arena: &DecompressedTree,
    dst_arena: &DecompressedTree,
    m: &mut M,
    g_src_root: Ghost<usize>,
    g_dst_root: Ghost<usize>,
) -> (tr: Ghost<Seq<(Map<usize, usize>, Map<usize, usize>)>>)
    requires
        store_wf(s),
        labels_ok(s, ls),
        s.nodes@.len() <= usize::MAX,
        cfg.wf(),
        src_arena.wf(),
        dst_arena.wf(),
        (g_src_root@ as int) < s.nodes@.len(),
        (g_dst_root@ as int) < s.nodes@.len(),
        src_arena.models(s, g_src_root@),
        dst_arena.models(s, g_dst_root@),
        src_arena.original@.len() >= 1,
        dst_arena.original@.len() >= 1,
        src_arena.original@.len() < 0xFFFF_FFFFusize,
        dst_arena.original@.len() < 0xFFFF_FFFFusize,
        store_fits(old(m), src_arena.original@.len() as int, dst_arena.original@.len() as int),
        entries_bounded(
            old(m).s2d(),
            old(m).d2s(),
            src_arena.original@.len() as int,
            dst_arena.original@.len() as int,
        ),
    ensures
        ({
            let n1 = src_arena.original@.len() as int;
            let n2 = dst_arena.original@.len() as int;
            let rs = (n1 - 1) as usize;
            let rd = (n2 - 1) as usize;
            &&& pair(final(m).s2d(), final(m).d2s(), rs, rd)
            &&& forall|x: usize, y: usize|
                #[trigger] pair(old(m).s2d(), old(m).d2s(), x, y) && x != rs && y != rd ==> pair(
                    final(m).s2d(),
                    final(m).d2s(),
                    x,
                    y,
                )
            &&& forall|x: usize, y: usize|
                #[trigger] pair(final(m).s2d(), final(m).d2s(), x, y) && !pair(
                    old(m).s2d(),
                    old(m).d2s(),
                    x,
                    y,
                ) ==> (x == rs && y == rd) || spec_ty(s, src_arena.original@[x as int]) == spec_ty(
                    s,
                    dst_arena.original@[y as int],
                )
            &&& entries_bounded(final(m).s2d(), final(m).d2s(), n1, n2)
            &&& forall|x: usize| #[trigger] final(m).valid_src(x) == old(m).valid_src(x)
            &&& forall|y: usize| #[trigger] final(m).valid_dst(y) == old(m).valid_dst(y)
            &&& tr@.len() == n1 + 1
            &&& tr@[0] == (old(m).s2d(), old(m).d2s())
            &&& forall|k: int|
                0 <= k < n1 ==> exec_step(s, src_arena, dst_arena, cfg, #[trigger] tr@[k], tr@[k
                    + 1], k)
            &&& exists|ps: Seq<(usize, usize)>| #[trigger]
                root_stage_ok(
                    s,
                    src_arena,
                    dst_arena,
                    cfg,
                    tr@[n1],
                    (final(m).s2d(), final(m).d2s()),
                    ps,
                )
        }),
{
    let n1 = src_arena.len();
    let n2 = dst_arena.len();
    proof {
        lemma_models_ids_in(s, src_arena, g_src_root@);
        lemma_models_ids_in(s, dst_arena, g_dst_root@);
    }
    let ghost rs = ((n1 - 1) as usize);
    let ghost rd = ((n2 - 1) as usize);
    let ghost mut trace: Seq<(Map<usize, usize>, Map<usize, usize>)> = seq![
        (old(m).s2d(), old(m).d2s()),
    ];
    let mut a: usize = 0;
    while a < n1
        invariant
            store_wf(s),
            labels_ok(s, ls),
            s.nodes@.len() <= usize::MAX,
            cfg.wf(),
            src_arena.wf(),
            dst_arena.wf(),
            (g_src_root@ as int) < s.nodes@.len(),
            (g_dst_root@ as int) < s.nodes@.len(),
            src_arena.models(s, g_src_root@),
            dst_arena.models(s, g_dst_root@),
            zs::ids_in(src_arena, s),
            zs::ids_in(dst_arena, s),
            a <= n1,
            n1 == src_arena.original@.len(),
            n2 == dst_arena.original@.len(),
            n1 >= 1,
            n2 >= 1,
            n1 < 0xFFFF_FFFFusize,
            n2 < 0xFFFF_FFFFusize,
            rs == ((n1 - 1) as usize),
            rd == ((n2 - 1) as usize),
            store_fits(m, n1 as int, n2 as int),
            entries_bounded(m.s2d(), m.d2s(), n1 as int, n2 as int),
            forall|x: usize, y: usize|
                #[trigger] pair(old(m).s2d(), old(m).d2s(), x, y) ==> pair(m.s2d(), m.d2s(), x, y),
            forall|x: usize, y: usize|
                #[trigger] pair(m.s2d(), m.d2s(), x, y) && !pair(old(m).s2d(), old(m).d2s(), x, y)
                    ==> spec_ty(s, src_arena.original@[x as int]) == spec_ty(
                    s,
                    dst_arena.original@[y as int],
                ),
            forall|x: usize| #[trigger] m.valid_src(x) == old(m).valid_src(x),
            forall|y: usize| #[trigger] m.valid_dst(y) == old(m).valid_dst(y),
            trace.len() == a + 1,
            trace[0] == (old(m).s2d(), old(m).d2s()),
            trace[a as int] == (m.s2d(), m.d2s()),
            forall|k: int|
                0 <= k < a ==> exec_step(s, src_arena, dst_arena, cfg, #[trigger] trace[k], trace[k
                    + 1], k),
        decreases n1 - a,
    {
        proof {
            m.lemma_reads();
        }
        let ghost pre_state = (m.s2d(), m.d2s());
        let ghost num = cfg.sim_threshold_num as int;
        let ghost den = cfg.sim_threshold_den as int;
        if src_arena.parent(a).is_some() {
            let mapped = m.is_src(a);
            let la = src_arena.first_descendant(a);
            if !mapped && la < a {
                let cands = get_dst_candidates(s, src_arena, dst_arena, m, a);
                proof {
                    assert forall|k: int|
                        0 <= k < cands@.len() implies ((#[trigger] cands@[k]) as int)
                        < dst_arena.original@.len() by {
                        assert(cands@.contains(cands@[k]));
                    }
                }
                let best = best_candidate(
                    src_arena,
                    dst_arena,
                    m,
                    a,
                    &cands,
                    cfg.sim_threshold_num,
                    cfg.sim_threshold_den,
                );
                match best {
                    Some(b) => {
                        let ghost m0 = *m;
                        proof {
                            assert(cands@.contains(b));
                            assert(is_candidate(
                                s,
                                src_arena,
                                dst_arena,
                                m0.s2d(),
                                m0.d2s(),
                                a as int,
                                b as int,
                            ));
                            assert(!m0.s2d().contains_key(a));
                            assert(!m0.d2s().contains_key(b));
                        }
                        let _zs_inner = last_chance_match_zs(
                            s,
                            ls,
                            cfg,
                            src_arena,
                            dst_arena,
                            m,
                            a,
                            b,
                            g_src_root,
                            g_dst_root,
                        );
                        let ghost m1 = *m;
                        m.link(a, b);
                        proof {
                            M::lemma_link(m1, *m, a, b);
                            assert forall|x: usize, y: usize|
                                #[trigger] pair(old(m).s2d(), old(m).d2s(), x, y) implies pair(
                                m.s2d(),
                                m.d2s(),
                                x,
                                y,
                            ) by {
                                assert(pair(m0.s2d(), m0.d2s(), x, y));
                                assert(m1.s2d().contains_key(x) && m1.s2d()[x] == y);
                                assert(m1.d2s().contains_key(y) && m1.d2s()[y] == x);
                                assert(x != a);
                                assert(y != b);
                            }
                            assert forall|x: usize, y: usize|
                                #[trigger] pair(m.s2d(), m.d2s(), x, y) && !pair(
                                    old(m).s2d(),
                                    old(m).d2s(),
                                    x,
                                    y,
                                ) implies spec_ty(s, src_arena.original@[x as int]) == spec_ty(
                                s,
                                dst_arena.original@[y as int],
                            ) by {
                                if x == a {
                                    assert(y == b);
                                } else {
                                    assert(m1.s2d().contains_key(x) && m1.s2d()[x] == y);
                                    if y == b {
                                        assert(m.d2s()[b] == a);
                                        assert(x == a);
                                    } else {
                                        assert(pair(m1.s2d(), m1.d2s(), x, y));
                                        if !pair(m0.s2d(), m0.d2s(), x, y) {
                                            if m0.s2d().contains_key(x) {
                                                assert(m0.s2d()[x] == y);
                                                assert(!m0.d2s().contains_key(y)
                                                    || m0.d2s()[y] != x);
                                                if m0.d2s().contains_key(y) {
                                                    assert(m1.d2s()[y] == m0.d2s()[y]);
                                                    assert(false);
                                                } else {
                                                    assert(!m0.s2d().contains_key(m1.d2s()[y]));
                                                    assert(false);
                                                }
                                            }
                                        }
                                    }
                                }
                            }
                            assert forall|c2: int|
                                is_candidate(
                                    s,
                                    src_arena,
                                    dst_arena,
                                    pre_state.0,
                                    pre_state.1,
                                    a as int,
                                    c2,
                                ) && meets_threshold(
                                    spec_common(pre_state.0, src_arena, dst_arena, a as int, c2),
                                    dsize(src_arena, a as int),
                                    dsize(dst_arena, c2),
                                    num,
                                    den,
                                ) implies !dice_gt(
                                spec_common(pre_state.0, src_arena, dst_arena, a as int, c2),
                                dsize(dst_arena, c2),
                                spec_common(pre_state.0, src_arena, dst_arena, a as int, b as int),
                                dsize(dst_arena, b as int),
                                dsize(src_arena, a as int),
                            ) by {
                                assert(cands@.contains((c2 as usize)));
                                let k = choose|k: int|
                                    0 <= k < cands@.len() && cands@[k] == (c2 as usize);
                                assert(cands@[k] as int == c2);
                            }
                            assert forall|c2: int|
                                c2 < b as int && is_candidate(
                                    s,
                                    src_arena,
                                    dst_arena,
                                    pre_state.0,
                                    pre_state.1,
                                    a as int,
                                    c2,
                                ) && meets_threshold(
                                    spec_common(pre_state.0, src_arena, dst_arena, a as int, c2),
                                    dsize(src_arena, a as int),
                                    dsize(dst_arena, c2),
                                    num,
                                    den,
                                ) implies dice_gt(
                                spec_common(pre_state.0, src_arena, dst_arena, a as int, b as int),
                                dsize(dst_arena, b as int),
                                spec_common(pre_state.0, src_arena, dst_arena, a as int, c2),
                                dsize(dst_arena, c2),
                                dsize(src_arena, a as int),
                            ) by {
                                assert(cands@.contains((c2 as usize)));
                                let k = choose|k: int|
                                    0 <= k < cands@.len() && cands@[k] == (c2 as usize);
                                assert(cands@[k] as int == c2);
                                assert(cands@[k] != b);
                            }
                            assert(spec_is_best(
                                s,
                                src_arena,
                                dst_arena,
                                pre_state.0,
                                pre_state.1,
                                a as int,
                                b as int,
                                num,
                                den,
                            ));
                            assert(spec_has_best(
                                s,
                                src_arena,
                                dst_arena,
                                pre_state.0,
                                pre_state.1,
                                a as int,
                                num,
                                den,
                            ));
                            let bb = spec_best(
                                s,
                                src_arena,
                                dst_arena,
                                pre_state.0,
                                pre_state.1,
                                a as int,
                                num,
                                den,
                            );
                            lemma_best_unique(
                                s,
                                src_arena,
                                dst_arena,
                                pre_state.0,
                                pre_state.1,
                                a as int,
                                bb,
                                b as int,
                                num,
                                den,
                            );
                            assert(merge_then_link_ok(
                                s,
                                src_arena,
                                dst_arena,
                                cfg,
                                pre_state,
                                (m.s2d(), m.d2s()),
                                a as int,
                                b as int,
                                _zs_inner@,
                            ));
                            assert(exec_step(
                                s,
                                src_arena,
                                dst_arena,
                                cfg,
                                pre_state,
                                (m.s2d(), m.d2s()),
                                a as int,
                            ));
                        }
                    },
                    None => {
                        proof {
                            if spec_has_best(
                                s,
                                src_arena,
                                dst_arena,
                                pre_state.0,
                                pre_state.1,
                                a as int,
                                num,
                                den,
                            ) {
                                let c = choose|c: int|
                                    spec_is_best(
                                        s,
                                        src_arena,
                                        dst_arena,
                                        pre_state.0,
                                        pre_state.1,
                                        a as int,
                                        c,
                                        num,
                                        den,
                                    );
                                assert(is_candidate(
                                    s,
                                    src_arena,
                                    dst_arena,
                                    pre_state.0,
                                    pre_state.1,
                                    a as int,
                                    c,
                                ));
                                assert(cands@.contains((c as usize)));
                                let k = choose|k: int|
                                    0 <= k < cands@.len() && cands@[k] == (c as usize);
                                assert(false);
                            }
                            assert(exec_step(
                                s,
                                src_arena,
                                dst_arena,
                                cfg,
                                pre_state,
                                (m.s2d(), m.d2s()),
                                a as int,
                            ));
                        }
                    },
                }
            } else {
                proof {
                    if mapped {
                        assert(pre_state.0.contains_key(a));
                    } else {
                        assert(la <= a);
                        assert(src_arena.lld@[a as int] == a);
                    }
                    assert(exec_step(
                        s,
                        src_arena,
                        dst_arena,
                        cfg,
                        pre_state,
                        (m.s2d(), m.d2s()),
                        a as int,
                    ));
                }
            }
        } else {
            proof {
                assert(a == n1 - 1);
                assert(exec_step(
                    s,
                    src_arena,
                    dst_arena,
                    cfg,
                    pre_state,
                    (m.s2d(), m.d2s()),
                    a as int,
                ));
            }
        }
        proof {
            assert(exec_step(s, src_arena, dst_arena, cfg, pre_state, (m.s2d(), m.d2s()), a as int));
            trace = trace.push((m.s2d(), m.d2s()));
        }
        a += 1;
    }
    proof {
        m.lemma_reads();
    }
    let ghost m2 = *m;
    m.link(n1 - 1, n2 - 1);
    proof {
        M::lemma_link(m2, *m, ((n1 - 1) as usize), ((n2 - 1) as usize));
    }
    let ghost m3 = *m;
    let _zs_root = last_chance_match_zs(
        s,
        ls,
        cfg,
        src_arena,
        dst_arena,
        m,
        n1 - 1,
        n2 - 1,
        g_src_root,
        g_dst_root,
    );
    proof {
        assert(m3.s2d().contains_key(rs) && m3.s2d()[rs] == rd);
        assert(m3.d2s().contains_key(rd) && m3.d2s()[rd] == rs);
        assert(pair(m.s2d(), m.d2s(), rs, rd));
        assert forall|x: usize, y: usize|
            #[trigger] pair(old(m).s2d(), old(m).d2s(), x, y) && x != rs && y != rd implies pair(
            m.s2d(),
            m.d2s(),
            x,
            y,
        ) by {
            assert(pair(m2.s2d(), m2.d2s(), x, y));
            assert(pair(m3.s2d(), m3.d2s(), x, y));
            assert(m.s2d().contains_key(x) && m.s2d()[x] == y);
            assert(m.d2s().contains_key(y) && m.d2s()[y] == x);
        }
        assert forall|x: usize, y: usize|
            #[trigger] pair(m.s2d(), m.d2s(), x, y) && !pair(
                old(m).s2d(),
                old(m).d2s(),
                x,
                y,
            ) implies (x == rs && y == rd) || spec_ty(s, src_arena.original@[x as int]) == spec_ty(
            s,
            dst_arena.original@[y as int],
        ) by {
            if !(x == rs && y == rd) {
                if m3.s2d().contains_key(x) && m3.s2d()[x] == y && m3.d2s().contains_key(y)
                    && m3.d2s()[y] == x {
                    if x == rs {
                        assert(m3.s2d()[rs] == rd);
                        assert(false);
                    }
                    if y == rd {
                        assert(m3.d2s()[rd] == rs);
                        assert(false);
                    }
                    assert(m2.s2d().contains_key(x) == m3.s2d().contains_key(x));
                    assert(pair(m2.s2d(), m2.d2s(), x, y));
                } else {
                    if m3.s2d().contains_key(x) && m3.s2d()[x] == y {
                        if m3.d2s().contains_key(y) && m3.d2s()[y] == x {
                            assert(false);
                        }
                        if m.d2s().contains_key(y) && !m3.d2s().contains_key(y) {
                            assert(!m3.s2d().contains_key(m.d2s()[y]));
                            assert(false);
                        } else {
                            assert(m.d2s()[y] == m3.d2s()[y]);
                            assert(false);
                        }
                    } else {
                        assert(m.s2d().contains_key(x) && !(m3.s2d().contains_key(x)
                            && m3.s2d()[x] == y));
                        if m3.s2d().contains_key(x) {
                            assert(m.s2d()[x] == m3.s2d()[x]);
                            assert(false);
                        }
                    }
                }
            }
        }
        assert(m3.s2d() =~= m2.s2d().insert(rs, rd));
        assert(m3.d2s() =~= m2.d2s().insert(rd, rs));
        assert(root_stage_ok(
            s,
            src_arena,
            dst_arena,
            cfg,
            (m2.s2d(), m2.d2s()),
            (m.s2d(), m.d2s()),
            _zs_root@,
        ));
        assert(trace[n1 as int] == (m2.s2d(), m2.d2s()));
    }
    Ghost(trace)
}

/// The matcher bundled with its two decompressed views and its store.
pub struct GreedyBottomUpMatcher<M: MonoMappingStore> {
    pub src_arena: DecompressedTree,
    pub dst_arena: DecompressedTree,
    pub mappings: M,
    pub config: MatcherConfig,
}

impl<M: MonoMappingStore> GreedyBottomUpMatcher<M> {
    pub fn new(
        src_arena: DecompressedTree,
        dst_arena: DecompressedTree,
        mappings: M,
        config: MatcherConfig,
    ) -> (r: Self)
        ensures
            r.src_arena == src_arena,
            r.dst_arena == dst_arena,
            r.mappings == mappings,
            r.config == config,
    {
        GreedyBottomUpMatcher { src_arena, dst_arena, mappings, config }
    }

    /// Decompresses both roots, sizes the store to the two lengths, and
    /// runs the bottom-up pass over the seed mapping.
    ///
    /// The guarantees of [`execute`] carry over against the seed: the
    /// roots end up paired, seeded pairs away from the roots survive, and
    /// every added non-root pair is type-equal.
    pub fn matchh(
        s: &NodeStore,
        ls: &LabelStore,
        src: usize,
        dst: usize,
        mappings: M,
        config: MatcherConfig,
    ) -> (r: Self)
        requires
            store_wf(s),
            labels_ok(s, ls),
            s.nodes@.len() <= usize::MAX,
            config.wf(),
            (src as int) < s.nodes@.len(),
            (dst as int) < s.nodes@.len(),
            crate::tree_store::subtree_size(s, src as int) < 0xFFFF_FFFFusize,
            crate::tree_store::subtree_size(s, dst as int) < 0xFFFF_FFFFusize,
            entries_bounded(
                mappings.s2d(),
                mappings.d2s(),
                crate::tree_store::subtree_size(s, src as int) as int,
                crate::tree_store::subtree_size(s, dst as int) as int,
            ),
        ensures
            ({
                let n1 = crate::tree_store::subtree_size(s, src as int) as int;
                let n2 = crate::tree_store::subtree_size(s, dst as int) as int;
                let rs = (n1 - 1) as usize;
                let rd = (n2 - 1) as usize;
                &&& r.src_arena.wf()
                &&& r.src_arena.models(s, src)
                &&& r.dst_arena.wf()
                &&& r.dst_arena.models(s, dst)
                &&& r.config == config
                &&& pair(r.mappings.s2d(), r.mappings.d2s(), rs, rd)
                &&& forall|x: usize, y: usize|
                    #[trigger] pair(mappings.s2d(), mappings.d2s(), x, y) && x != rs && y != rd
                        ==> pair(r.mappings.s2d(), r.mappings.d2s(), x, y)
                &&& forall|x: usize, y: usize|
                    #[trigger] pair(r.mappings.s2d(), r.mappings.d2s(), x, y) && !pair(
                        mappings.s2d(),
                        mappings.d2s(),
                        x,
                        y,
                    ) ==> (x == rs && y == rd) || spec_ty(s, r.src_arena.original@[x as int])
                        == spec_ty(s, r.dst_arena.original@[y as int])
                &&& entries_bounded(r.mappings.s2d(), r.mappings.d2s(), n1, n2)
            }),
    {
        proof {
            crate::tree_store::lemma_po_facts(s, src as int);
            crate::tree_store::lemma_po_facts(s, dst as int);
        }
        let src_arena = decompress(s, src);
        let dst_arena = decompress(s, dst);
        let mut matcher = Self::new(src_arena, dst_arena, mappings, config);
        let ghost seed = matcher.mappings;
        let n1 = matcher.src_arena.len();
        let n2 = matcher.dst_arena.len();
        matcher.mappings.topit(n1, n2);
        proof {
            M::lemma_topit(seed, matcher.mappings, n1, n2);
            assert(matcher.mappings.s2d() =~= seed.s2d());
            assert(matcher.mappings.d2s() =~= seed.d2s());
        }
        let _tr = execute(
            s,
            ls,
            &matcher.config,
            &matcher.src_arena,
            &matcher.dst_arena,
            &mut matcher.mappings,
            Ghost(src),
            Ghost(dst),
        );
        matcher
    }
}

} // verus!
