//! Zhang–Shasha optimal tree matcher.
//!
//! Computes a node-to-node mapping between two small trees through the
//! classic tree-edit-distance dynamic programme with unit insert and
//! delete costs; the rename cost is `0` exactly when the two labels
//! resolve to the same bytes.  Key roots drive the outer loops so that
//! forest distances are not recomputed redundantly.  The mapping is read
//! back by walking the forest-distance matrix from the root pair down.
//!
//! The result maps local post-order indices `[0, n1) × [0, n2)`; callers
//! translate them by each subtree's first descendant.

use crate::decompressed::DecompressedTree;
use crate::mapping_store::{MappingStore, MonoMappingStore, VecStore};
use crate::tree_store::{labels_ok, store_wf, LabelStore, NodeStore};
use vstd::prelude::*;

verus! {

/// Every external id the view mentions resolves in the store.
pub open spec fn ids_in(t: &DecompressedTree, s: &NodeStore) -> bool {
    forall|j: int|
        0 <= j < t.original@.len() ==> ((#[trigger] t.original@[j]) as int) < s.nodes@.len()
}

/// A rows-by-cols matrix of distances.
spec fn mat_shape(m: Seq<Vec<usize>>, rows: int, cols: int) -> bool {
    m.len() == rows && forall|r: int| 0 <= r < rows ==> (#[trigger] m[r]@.len()) == cols
}

/// The mapping only pairs local indices below the two sizes.
pub open spec fn local_bounds(m: &VecStore, n1: int, n2: int) -> bool {
    &&& forall|x: usize|
        #[trigger] m.spec_s2d().contains_key(x) ==> (x as int) < n1 && (m.spec_s2d()[x] as int)
            < n2
    &&& forall|y: usize|
        #[trigger] m.spec_d2s().contains_key(y) ==> (y as int) < n2 && (m.spec_d2s()[y] as int)
            < n1
}

/// The mapping is a partial bijection: each direction inverts the other.
pub open spec fn coherent(m: &VecStore) -> bool {
    &&& forall|x: usize|
        #[trigger] m.spec_s2d().contains_key(x) ==> m.spec_d2s().contains_key(m.spec_s2d()[x])
            && m.spec_d2s()[m.spec_s2d()[x]] == x
    &&& forall|y: usize|
        #[trigger] m.spec_d2s().contains_key(y) ==> m.spec_s2d().contains_key(m.spec_d2s()[y])
            && m.spec_s2d()[m.spec_d2s()[y]] == y
}

/// Mapped pairs never cross: later rows map to later columns.
pub open spec fn non_crossing(m: &VecStore) -> bool {
    forall|x1: usize, x2: usize|
        #![trigger m.spec_s2d().contains_key(x1), m.spec_s2d().contains_key(x2)]
        m.spec_s2d().contains_key(x1) && m.spec_s2d().contains_key(x2) && x1 < x2
            ==> m.spec_s2d()[x1] < m.spec_s2d()[x2]
}

/// No mapped row or column lies inside the block of the subtree pair
/// `(i, j)` (one-based), and every mapped pair lies on the same side of
/// the block on both axes.
pub open spec fn split_around(
    m: &VecStore,
    src: &DecompressedTree,
    dst: &DecompressedTree,
    i: int,
    j: int,
) -> bool {
    let fr = src.lld@[i - 1] as int;
    let fc = dst.lld@[j - 1] as int;
    &&& forall|x: usize|
        #[trigger] m.spec_s2d().contains_key(x) ==> !(fr <= x as int <= i - 1) && ((x as int > i
            - 1) <==> ((m.spec_s2d()[x] as int) > j - 1))
    &&& forall|y: usize| #[trigger] m.spec_d2s().contains_key(y) ==> !(fc <= y as int <= j - 1)
}

/// Matches the two decompressed trees, returning a store over their local
/// indices, sized with one sentinel slot per side.
pub fn match_with(
    s: &NodeStore,
    ls: &LabelStore,
    src: &DecompressedTree,
    dst: &DecompressedTree,
) -> (m: VecStore)
    requires
        store_wf(s),
        labels_ok(s, ls),
        src.wf(),
        dst.wf(),
        ids_in(src, s),
        ids_in(dst, s),
        src.original@.len() < usize::MAX,
        dst.original@.len() < usize::MAX,
    ensures
        m.src_to_dst@.len() == src.original@.len() + 1,
        m.dst_to_src@.len() == dst.original@.len() + 1,
        local_bounds(&m, src.original@.len() as int, dst.original@.len() as int),
        coherent(&m),
        non_crossing(&m),
{
    let n1 = src.len();
    let n2 = dst.len();
    let mut td = mat_new(n1 + 1, n2 + 1);
    let mut fd = mat_new(n1 + 1, n2 + 1);
    let kr1 = src.iter_kr();
    let kr2 = dst.iter_kr();
    proof {
        crate::decompressed::lemma_key_roots_bounds(src.lld@, src.lld@.len() as int);
        crate::decompressed::lemma_key_roots_bounds(dst.lld@, dst.lld@.len() as int);
    }
    let mut a: usize = 0;
    while a < kr1.len()
        invariant
            store_wf(s),
            labels_ok(s, ls),
            src.wf(),
            dst.wf(),
            ids_in(src, s),
            ids_in(dst, s),
            n1 == src.original@.len(),
            n2 == dst.original@.len(),
            n1 < usize::MAX,
            n2 < usize::MAX,
            mat_shape(td@, n1 + 1, n2 + 1),
            mat_shape(fd@, n1 + 1, n2 + 1),
            forall|t: int| 0 <= t < kr1@.len() ==> (#[trigger] kr1@[t]) < n1,
            forall|t: int| 0 <= t < kr2@.len() ==> (#[trigger] kr2@[t]) < n2,
        decreases kr1@.len() - a,
    {
        let i = kr1[a];
        let mut b: usize = 0;
        while b < kr2.len()
            invariant
                store_wf(s),
                labels_ok(s, ls),
                src.wf(),
                dst.wf(),
                ids_in(src, s),
                ids_in(dst, s),
                n1 == src.original@.len(),
                n2 == dst.original@.len(),
                n1 < usize::MAX,
                n2 < usize::MAX,
                i < n1,
                mat_shape(td@, n1 + 1, n2 + 1),
                mat_shape(fd@, n1 + 1, n2 + 1),
                forall|t: int| 0 <= t < kr2@.len() ==> (#[trigger] kr2@[t]) < n2,
            decreases kr2@.len() - b,
        {
            let j = kr2[b];
            forest_dist(s, ls, src, dst, &mut td, &mut fd, i + 1, j + 1);
            b += 1;
        }
        a += 1;
    }
    let mut m = VecStore::default();
    m.topit(n1, n2);
    proof {
        assert(m.spec_s2d() =~= Map::<usize, usize>::empty());
        assert(m.spec_d2s() =~= Map::<usize, usize>::empty());
    }
    if n1 > 0 && n2 > 0 {
        extract(s, ls, src, dst, &mut td, &mut fd, &mut m, n1, n2);
    }
    m
}

/// Rename cost between the nodes at local indices `a` and `b`: `0` when
/// their labels hold the same bytes, else `1`.
fn update_cost(
    s: &NodeStore,
    ls: &LabelStore,
    src: &DecompressedTree,
    dst: &DecompressedTree,
    a: usize,
    b: usize,
) -> (r: usize)
    requires
        store_wf(s),
        labels_ok(s, ls),
        ids_in(src, s),
        ids_in(dst, s),
        a < src.original@.len(),
        b < dst.original@.len(),
    ensures
        r <= 1,
{
    let ida = src.original(a);
    let idb = dst.original(b);
    let la = s.resolve(ida).label;
    let lb = s.resolve(idb).label;
    if bytes_eq(ls.resolve(la), ls.resolve(lb)) {
        0
    } else {
        1
    }
}

/// Byte-for-byte comparison of two label payloads.
fn bytes_eq(x: &Vec<u8>, y: &Vec<u8>) -> (r: bool)
    ensures
        r == (x@ == y@),
{
    if x.len() != y.len() {
        proof {
            assert(x@ != y@);
        }
        return false;
    }
    let n = x.len();
    let mut i: usize = 0;
    while i < n
        invariant
            i <= n,
            n == x@.len(),
            n == y@.len(),
            forall|j: int| 0 <= j < i ==> x@[j] == y@[j],
        decreases n - i,
    {
        if x[i] != y[i] {
            proof {
                assert(x@[i as int] != y@[i as int]);
            }
            return false;
        }
        i += 1;
    }
    proof {
        assert(x@ =~= y@);
    }
    true
}

fn mat_new(rows: usize, cols: usize) -> (m: Vec<Vec<usize>>)
    ensures
        mat_shape(m@, rows as int, cols as int),
{
    let mut m: Vec<Vec<usize>> = Vec::new();
    let mut r: usize = 0;
    while r < rows
        invariant
            r <= rows,
            m@.len() == r,
            forall|x: int| 0 <= x < r ==> (#[trigger] m@[x]@.len()) == cols,
        decreases rows - r,
    {
        let mut row: Vec<usize> = Vec::new();
        let mut c: usize = 0;
        while c < cols
            invariant
                c <= cols,
                row@.len() == c,
            decreases cols - c,
        {
            row.push(0);
            c += 1;
        }
        m.push(row);
        r += 1;
    }
    m
}

fn mat_get(m: &Vec<Vec<usize>>, a: usize, b: usize) -> (r: usize)
    requires
        a < m@.len(),
        b < m@[a as int]@.len(),
    ensures
        r == m@[a as int]@[b as int],
{
    m[a][b]
}

fn mat_set(m: &mut Vec<Vec<usize>>, a: usize, b: usize, v: usize)
    requires
        a < old(m)@.len(),
        b < old(m)@[a as int]@.len(),
    ensures
        final(m)@.len() == old(m)@.len(),
        final(m)@[a as int]@ == old(m)@[a as int]@.update(b as int, v),
        forall|r: int| 0 <= r < old(m)@.len() && r != a ==> #[trigger] final(m)@[r] == old(m)@[r],
{
    let row = &mut m[a];
    row[b] = v;
}

fn min3(a: usize, b: usize, c: usize) -> (r: usize)
    ensures
        r == a || r == b || r == c,
        r <= a && r <= b && r <= c,
{
    let mut r = a;
    if b < r {
        r = b;
    }
    if c < r {
        r = c;
    }
    r
}

/// Fills the forest-distance matrix for the key-root pair `(i, j)` (given
/// one-based) and records tree distances for the subtree pairs whose
/// leftmost leaves line up with the key roots'.
fn forest_dist(
    s: &NodeStore,
    ls: &LabelStore,
    src: &DecompressedTree,
    dst: &DecompressedTree,
    td: &mut Vec<Vec<usize>>,
    fd: &mut Vec<Vec<usize>>,
    i: usize,
    j: usize,
)
    requires
        store_wf(s),
        labels_ok(s, ls),
        src.wf(),
        dst.wf(),
        ids_in(src, s),
        ids_in(dst, s),
        1 <= i <= src.original@.len(),
        1 <= j <= dst.original@.len(),
        src.original@.len() < usize::MAX,
        dst.original@.len() < usize::MAX,
        mat_shape(old(td)@, src.original@.len() as int + 1, dst.original@.len() as int + 1),
        mat_shape(old(fd)@, src.original@.len() as int + 1, dst.original@.len() as int + 1),
    ensures
        mat_shape(final(td)@, src.original@.len() as int + 1, dst.original@.len() as int + 1),
        mat_shape(final(fd)@, src.original@.len() as int + 1, dst.original@.len() as int + 1),
{
    let ghost n1 = src.original@.len() as int;
    let ghost n2 = dst.original@.len() as int;
    let li = src.first_descendant(i - 1);
    let lj = dst.first_descendant(j - 1);
    mat_set(fd, li, lj, 0);
    let mut di: usize = li + 1;
    while di <= i
        invariant
            li < di,
            li <= i <= src.original@.len(),
            lj < dst.original@.len(),
            src.original@.len() < usize::MAX,
            mat_shape(td@, n1 + 1, n2 + 1),
            mat_shape(fd@, n1 + 1, n2 + 1),
            n1 == src.original@.len(),
            n2 == dst.original@.len(),
        decreases i + 1 - di,
    {
        let v = mat_get(fd, di - 1, lj);
        mat_set(fd, di, lj, v.saturating_add(1));
        di += 1;
    }
    let mut dj: usize = lj + 1;
    while dj <= j
        invariant
            lj < dj,
            lj <= j <= dst.original@.len(),
            li < src.original@.len(),
            dst.original@.len() < usize::MAX,
            mat_shape(td@, n1 + 1, n2 + 1),
            mat_shape(fd@, n1 + 1, n2 + 1),
            n1 == src.original@.len(),
            n2 == dst.original@.len(),
        decreases j + 1 - dj,
    {
        let v = mat_get(fd, li, dj - 1);
        mat_set(fd, li, dj, v.saturating_add(1));
        dj += 1;
    }
    let mut di: usize = li + 1;
    while di <= i
        invariant
            store_wf(s),
            labels_ok(s, ls),
            src.wf(),
            dst.wf(),
            ids_in(src, s),
            ids_in(dst, s),
            li < di,
            li <= i <= src.original@.len(),
            lj <= j <= dst.original@.len(),
            src.original@.len() < usize::MAX,
            dst.original@.len() < usize::MAX,
            mat_shape(td@, n1 + 1, n2 + 1),
            mat_shape(fd@, n1 + 1, n2 + 1),
            n1 == src.original@.len(),
            n2 == dst.original@.len(),
        decreases i + 1 - di,
    {
        let mut dj: usize = lj + 1;
        while dj <= j
            invariant
                store_wf(s),
                labels_ok(s, ls),
                src.wf(),
                dst.wf(),
                ids_in(src, s),
                ids_in(dst, s),
                li < di <= i,
                i <= src.original@.len(),
                lj < dj,
                lj <= j <= dst.original@.len(),
                src.original@.len() < usize::MAX,
                dst.original@.len() < usize::MAX,
                mat_shape(td@, n1 + 1, n2 + 1),
                mat_shape(fd@, n1 + 1, n2 + 1),
                n1 == src.original@.len(),
                n2 == dst.original@.len(),
            decreases j + 1 - dj,
        {
            let a = mat_get(fd, di - 1, dj).saturating_add(1);
            let b = mat_get(fd, di, dj - 1).saturating_add(1);
            let lld_di = src.first_descendant(di - 1);
            let lld_dj = dst.first_descendant(dj - 1);
            if lld_di == li && lld_dj == lj {
                let u = update_cost(s, ls, src, dst, di - 1, dj - 1);
                let c = mat_get(fd, di - 1, dj - 1).saturating_add(u);
                let t = min3(a, b, c);
                mat_set(td, di, dj, t);
                mat_set(fd, di, dj, t);
            } else {
                let c = mat_get(fd, lld_di, lld_dj).saturating_add(mat_get(td, di, dj));
                mat_set(fd, di, dj, min3(a, b, c));
            }
            dj += 1;
        }
        di += 1;
    }
}

/// Reads the mapping back for the subtree pair `(i, j)` (one-based): walks
/// the recomputed forest distances from the pair down, records aligned
/// nodes, and recurses into deferred subtree pairs.
fn extract(
    s: &NodeStore,
    ls: &LabelStore,
    src: &DecompressedTree,
    dst: &DecompressedTree,
    td: &mut Vec<Vec<usize>>,
    fd: &mut Vec<Vec<usize>>,
    m: &mut VecStore,
    i: usize,
    j: usize,
)
    requires
        store_wf(s),
        labels_ok(s, ls),
        src.wf(),
        dst.wf(),
        ids_in(src, s),
        ids_in(dst, s),
        1 <= i <= src.original@.len(),
        1 <= j <= dst.original@.len(),
        src.original@.len() < usize::MAX,
        dst.original@.len() < usize::MAX,
        mat_shape(old(td)@, src.original@.len() as int + 1, dst.original@.len() as int + 1),
        mat_shape(old(fd)@, src.original@.len() as int + 1, dst.original@.len() as int + 1),
        old(m).src_to_dst@.len() == src.original@.len() + 1,
        old(m).dst_to_src@.len() == dst.original@.len() + 1,
        local_bounds(old(m), src.original@.len() as int, dst.original@.len() as int),
        coherent(old(m)),
        non_crossing(old(m)),
        split_around(old(m), src, dst, i as int, j as int),
    ensures
        mat_shape(final(td)@, src.original@.len() as int + 1, dst.original@.len() as int + 1),
        mat_shape(final(fd)@, src.original@.len() as int + 1, dst.original@.len() as int + 1),
        final(m).src_to_dst@.len() == src.original@.len() + 1,
        final(m).dst_to_src@.len() == dst.original@.len() + 1,
        local_bounds(final(m), src.original@.len() as int, dst.original@.len() as int),
        coherent(final(m)),
        non_crossing(final(m)),
        forall|x: usize|
            #[trigger] old(m).spec_s2d().contains_key(x) ==> final(m).spec_s2d().contains_key(x)
                && final(m).spec_s2d()[x] == old(m).spec_s2d()[x],
        forall|y: usize|
            #[trigger] old(m).spec_d2s().contains_key(y) ==> final(m).spec_d2s().contains_key(y)
                && final(m).spec_d2s()[y] == old(m).spec_d2s()[y],
        forall|x: usize|
            #[trigger] final(m).spec_s2d().contains_key(x) && !old(m).spec_s2d().contains_key(x)
                ==> src.lld@[i - 1] <= x as int <= i - 1 && dst.lld@[j - 1] <= (final(m).spec_s2d()[x] as int)
                <= j - 1,
        forall|y: usize|
            #[trigger] final(m).spec_d2s().contains_key(y) && !old(m).spec_d2s().contains_key(y)
                ==> dst.lld@[j - 1] <= y as int <= j - 1,
    decreases i + j,
{
    let ghost n1 = src.original@.len() as int;
    let ghost n2 = dst.original@.len() as int;
    forest_dist(s, ls, src, dst, td, fd, i, j);
    let fr = src.first_descendant(i - 1);
    let fc = dst.first_descendant(j - 1);
    let mut row = i;
    let mut col = j;
    let mut subs: Vec<(usize, usize)> = Vec::new();
    while row > fr || col > fc
        invariant
            store_wf(s),
            labels_ok(s, ls),
            src.wf(),
            dst.wf(),
            ids_in(src, s),
            ids_in(dst, s),
            1 <= i <= src.original@.len(),
            1 <= j <= dst.original@.len(),
            src.original@.len() < usize::MAX,
            dst.original@.len() < usize::MAX,
            fr == src.lld@[i - 1],
            fc == dst.lld@[j - 1],
            fr <= row <= i,
            fc <= col <= j,
            mat_shape(td@, n1 + 1, n2 + 1),
            mat_shape(fd@, n1 + 1, n2 + 1),
            m.src_to_dst@.len() == n1 + 1,
            m.dst_to_src@.len() == n2 + 1,
            local_bounds(m, n1, n2),
            n1 == src.original@.len(),
            n2 == dst.original@.len(),
            coherent(m),
            non_crossing(m),
            coherent(old(m)),
            split_around(old(m), src, dst, i as int, j as int),
            forall|x: usize|
                #[trigger] old(m).spec_s2d().contains_key(x) ==> m.spec_s2d().contains_key(x)
                    && m.spec_s2d()[x] == old(m).spec_s2d()[x],
            forall|y: usize|
                #[trigger] old(m).spec_d2s().contains_key(y) ==> m.spec_d2s().contains_key(y)
                    && m.spec_d2s()[y] == old(m).spec_d2s()[y],
            forall|x: usize|
                #[trigger] m.spec_s2d().contains_key(x) && !old(m).spec_s2d().contains_key(x)
                    ==> row as int <= x as int <= i - 1 && col as int <= (m.spec_s2d()[x] as int)
                    <= j - 1 && fr <= x && fc as int <= m.spec_s2d()[x] as int,
            forall|y: usize|
                #[trigger] m.spec_d2s().contains_key(y) && !old(m).spec_d2s().contains_key(y)
                    ==> col as int <= y as int <= j - 1 && fc <= y,
            forall|t: int|
                0 <= t < subs@.len() ==> 1 <= (#[trigger] subs@[t]).0 && subs@[t].0 as int <= n1
                    && 1 <= subs@[t].1 && subs@[t].1 as int <= n2 && subs@[t].0 + subs@[t].1 < i
                    + j,
            forall|t: int|
                0 <= t < subs@.len() ==> fr <= src.lld@[(#[trigger] subs@[t]).0 - 1] && subs@[t].0
                    as int - 1 <= i - 1 && fc <= dst.lld@[subs@[t].1 - 1] && subs@[t].1 as int - 1
                    <= j - 1,
            forall|t: int|
                0 <= t < subs@.len() ==> row as int <= src.lld@[(#[trigger] subs@[t]).0 - 1]
                    && col as int <= dst.lld@[subs@[t].1 - 1],
            forall|t1: int, t2: int|
                0 <= t1 < t2 < subs@.len() ==> subs@[t2].0 as int - 1 < src.lld@[(
                #[trigger] subs@[t1]).0 - 1] && (#[trigger] subs@[t2]).1 as int - 1 < dst.lld@[
                    subs@[t1].1 - 1],
            forall|t2: int, x: usize|
                0 <= t2 < subs@.len() && #[trigger] m.spec_s2d().contains_key(x) ==> !(src.lld@[(
                #[trigger] subs@[t2]).0 - 1] <= x as int <= subs@[t2].0 - 1) && ((x as int
                    > subs@[t2].0 - 1) <==> ((m.spec_s2d()[x] as int) > subs@[t2].1 - 1)),
            forall|t2: int, y: usize|
                0 <= t2 < subs@.len() && #[trigger] m.spec_d2s().contains_key(y) ==> !(dst.lld@[(
                #[trigger] subs@[t2]).1 - 1] <= y as int <= subs@[t2].1 - 1),
        decreases row + col,
    {
        if row > fr && mat_get(fd, row - 1, col).saturating_add(1) == mat_get(fd, row, col) {
            row -= 1;
        } else if col > fc && mat_get(fd, row, col - 1).saturating_add(1) == mat_get(
            fd,
            row,
            col,
        ) {
            col -= 1;
        } else if row > fr && col > fc {
            let lld_row = src.first_descendant(row - 1);
            let lld_col = dst.first_descendant(col - 1);
            if lld_row == fr && lld_col == fc {
                let ghost pre_m = *m;
                proof {
                    assert(!pre_m.spec_s2d().contains_key(((row - 1) as usize)));
                    assert(!pre_m.spec_d2s().contains_key(((col - 1) as usize)));
                }
                m.link(row - 1, col - 1);
                proof {
                    crate::mapping_store::VecStore::lemma_link(
                        pre_m,
                        *m,
                        (row - 1) as usize,
                        (col - 1) as usize,
                    );
                    assert forall|x1: usize, x2: usize|
                        #![trigger m.spec_s2d().contains_key(x1), m.spec_s2d().contains_key(x2)]
                        m.spec_s2d().contains_key(x1) && m.spec_s2d().contains_key(x2) && x1
                            < x2 implies m.spec_s2d()[x1] < m.spec_s2d()[x2] by {
                        if x1 != ((row - 1) as usize) && x2 != ((row - 1) as usize) {
                            assert(pre_m.spec_s2d().contains_key(x1));
                            assert(pre_m.spec_s2d().contains_key(x2));
                        } else if x2 == ((row - 1) as usize) {
                            assert(pre_m.spec_s2d().contains_key(x1));
                            if !old(m).spec_s2d().contains_key(x1) {
                                assert(false);
                            } else {
                                assert(!(fr <= x1 as int <= i - 1));
                                assert((pre_m.spec_s2d()[x1] as int <= j - 1) ==> pre_m.spec_d2s().contains_key(
                                    pre_m.spec_s2d()[x1],
                                ));
                                assert((x1 as int > i - 1) <==> ((pre_m.spec_s2d()[x1] as int) > j
                                    - 1));
                                assert(!(fc <= pre_m.spec_s2d()[x1] as int <= j - 1));
                            }
                        } else {
                            assert(pre_m.spec_s2d().contains_key(x2));
                            if old(m).spec_s2d().contains_key(x2) {
                                assert((x2 as int > i - 1) <==> ((pre_m.spec_s2d()[x2] as int) > j
                                    - 1));
                            }
                        }
                    }
                    assert forall|t2: int, x: usize|
                        0 <= t2 < subs@.len() && #[trigger] m.spec_s2d().contains_key(
                            x,
                        ) implies !(src.lld@[(#[trigger] subs@[t2]).0 - 1] <= x as int
                        <= subs@[t2].0 - 1) && ((x as int > subs@[t2].0 - 1) <==> ((
                    m.spec_s2d()[x] as int) > subs@[t2].1 - 1)) by {
                        if x == ((row - 1) as usize) {
                            assert(((row - 1) as int) < src.lld@[subs@[t2].0 - 1]);
                            assert(((col - 1) as int) < dst.lld@[subs@[t2].1 - 1]);
                            assert(dst.lld@[subs@[t2].1 - 1] <= subs@[t2].1 - 1);
                        } else {
                            assert(pre_m.spec_s2d().contains_key(x));
                        }
                    }
                }
                row -= 1;
                col -= 1;
            } else {
                let ghost prev_subs = subs@;
                subs.push((row, col));
                proof {
                    assert(src.lld@[(i - 1) as int] <= (row - 1) as int <= (i - 1) as int);
                    assert(src.lld@[(row - 1) as int] >= src.lld@[(i - 1) as int]);
                    assert(dst.lld@[(j - 1) as int] <= (col - 1) as int <= (j - 1) as int);
                    assert(dst.lld@[(col - 1) as int] >= dst.lld@[(j - 1) as int]);
                    assert forall|t2: int, x: usize|
                        0 <= t2 < subs@.len() && #[trigger] m.spec_s2d().contains_key(
                            x,
                        ) implies !(src.lld@[(#[trigger] subs@[t2]).0 - 1] <= x as int
                        <= subs@[t2].0 - 1) && ((x as int > subs@[t2].0 - 1) <==> ((
                    m.spec_s2d()[x] as int) > subs@[t2].1 - 1)) by {
                        if t2 < prev_subs.len() {
                            assert(subs@[t2] == prev_subs[t2]);
                        } else {
                            assert(subs@[t2] == (row, col));
                            if old(m).spec_s2d().contains_key(x) {
                                assert(!(src.lld@[(i - 1) as int] <= x as int <= i - 1));
                                assert((x as int > i - 1) <==> ((m.spec_s2d()[x] as int) > j
                                    - 1));
                                if x as int > i - 1 {
                                    assert((m.spec_s2d()[x] as int) > j - 1);
                                } else {
                                    assert((x as int) < src.lld@[(i - 1) as int]);
                                    assert(m.spec_d2s().contains_key(m.spec_s2d()[x]));
                                    assert(old(m).spec_d2s().contains_key(m.spec_s2d()[x]));
                                    assert(!(dst.lld@[(j - 1) as int] <= (m.spec_s2d()[x] as int)
                                        <= j - 1));
                                    assert((m.spec_s2d()[x] as int) < dst.lld@[(j - 1) as int]);
                                }
                            } else {
                                assert(row as int <= x as int);
                                assert(col as int <= m.spec_s2d()[x] as int);
                            }
                        }
                    }
                    assert forall|t2: int, y: usize|
                        0 <= t2 < subs@.len() && #[trigger] m.spec_d2s().contains_key(
                            y,
                        ) implies !(dst.lld@[(#[trigger] subs@[t2]).1 - 1] <= y as int
                        <= subs@[t2].1 - 1) by {
                        if t2 < prev_subs.len() {
                            assert(subs@[t2] == prev_subs[t2]);
                        } else {
                            assert(subs@[t2] == (row, col));
                            if old(m).spec_d2s().contains_key(y) {
                                assert(!(dst.lld@[(j - 1) as int] <= y as int <= j - 1));
                            } else {
                                assert(col as int <= y as int);
                            }
                        }
                    }
                }
                row = lld_row;
                col = lld_col;
            }
        } else if row > fr {
            row -= 1;
        } else {
            col -= 1;
        }
    }
    let nsubs = subs.len();
    let mut t: usize = 0;
    while t < nsubs
        invariant
            store_wf(s),
            labels_ok(s, ls),
            src.wf(),
            dst.wf(),
            ids_in(src, s),
            ids_in(dst, s),
            1 <= i <= src.original@.len(),
            1 <= j <= dst.original@.len(),
            src.original@.len() < usize::MAX,
            dst.original@.len() < usize::MAX,
            fr == src.lld@[i - 1],
            fc == dst.lld@[j - 1],
            t <= nsubs,
            nsubs == subs@.len(),
            mat_shape(td@, n1 + 1, n2 + 1),
            mat_shape(fd@, n1 + 1, n2 + 1),
            m.src_to_dst@.len() == n1 + 1,
            m.dst_to_src@.len() == n2 + 1,
            local_bounds(m, n1, n2),
            n1 == src.original@.len(),
            n2 == dst.original@.len(),
            coherent(m),
            non_crossing(m),
            forall|x: usize|
                #[trigger] old(m).spec_s2d().contains_key(x) ==> m.spec_s2d().contains_key(x)
                    && m.spec_s2d()[x] == old(m).spec_s2d()[x],
            forall|y: usize|
                #[trigger] old(m).spec_d2s().contains_key(y) ==> m.spec_d2s().contains_key(y)
                    && m.spec_d2s()[y] == old(m).spec_d2s()[y],
            forall|x: usize|
                #[trigger] m.spec_s2d().contains_key(x) && !old(m).spec_s2d().contains_key(x)
                    ==> fr <= x as int <= i - 1 && fc <= (m.spec_s2d()[x] as int) <= j - 1,
            forall|y: usize|
                #[trigger] m.spec_d2s().contains_key(y) && !old(m).spec_d2s().contains_key(y)
                    ==> fc <= y as int <= j - 1,
            forall|x: int|
                0 <= x < subs@.len() ==> 1 <= (#[trigger] subs@[x]).0 && subs@[x].0 as int <= n1
                    && 1 <= subs@[x].1 && subs@[x].1 as int <= n2 && subs@[x].0 + subs@[x].1 < i
                    + j,
            forall|x: int|
                0 <= x < subs@.len() ==> fr <= src.lld@[(#[trigger] subs@[x]).0 - 1] && subs@[x].0
                    as int - 1 <= i - 1 && fc <= dst.lld@[subs@[x].1 - 1] && subs@[x].1 as int - 1
                    <= j - 1,
            forall|t1: int, t2: int|
                0 <= t1 < t2 < subs@.len() ==> subs@[t2].0 as int - 1 < src.lld@[(
                #[trigger] subs@[t1]).0 - 1] && (#[trigger] subs@[t2]).1 as int - 1 < dst.lld@[
                    subs@[t1].1 - 1],
            forall|t2: int, x: usize|
                t <= t2 < subs@.len() && #[trigger] m.spec_s2d().contains_key(x) ==> !(src.lld@[(
                #[trigger] subs@[t2]).0 - 1] <= x as int <= subs@[t2].0 - 1) && ((x as int
                    > subs@[t2].0 - 1) <==> ((m.spec_s2d()[x] as int) > subs@[t2].1 - 1)),
            forall|t2: int, y: usize|
                t <= t2 < subs@.len() && #[trigger] m.spec_d2s().contains_key(y) ==> !(dst.lld@[(
                #[trigger] subs@[t2]).1 - 1] <= y as int <= subs@[t2].1 - 1),
        decreases nsubs - t,
    {
        let (r2, c2) = subs[t];
        proof {
            assert(subs@[t as int] == (r2, c2));
        }
        let ghost m_before = *m;
        extract(s, ls, src, dst, td, fd, m, r2, c2);
        proof {
            assert forall|t2: int, x: usize|
                t + 1 <= t2 < subs@.len() && #[trigger] m.spec_s2d().contains_key(x) implies !(
            src.lld@[(#[trigger] subs@[t2]).0 - 1] <= x as int <= subs@[t2].0 - 1) && ((x as int
                > subs@[t2].0 - 1) <==> ((m.spec_s2d()[x] as int) > subs@[t2].1 - 1)) by {
                if !m_before.spec_s2d().contains_key(x) {
                    assert(src.lld@[r2 - 1] <= x as int <= r2 - 1);
                    assert(subs@[t2].0 as int - 1 < src.lld@[r2 - 1]);
                    assert(subs@[t2].1 as int - 1 < dst.lld@[c2 - 1]);
                } else {
                    assert(m.spec_s2d()[x] == m_before.spec_s2d()[x]);
                }
            }
            assert forall|t2: int, y: usize|
                t + 1 <= t2 < subs@.len() && #[trigger] m.spec_d2s().contains_key(y) implies !(
            dst.lld@[(#[trigger] subs@[t2]).1 - 1] <= y as int <= subs@[t2].1 - 1) by {
                if !m_before.spec_d2s().contains_key(y) {
                    assert(dst.lld@[c2 - 1] <= y as int <= c2 - 1);
                    assert(subs@[t2].1 as int - 1 < dst.lld@[c2 - 1]);
                }
            }
        }
        t += 1;
    }
}

} // verus!
