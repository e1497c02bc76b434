//! Population bookkeeping: stable ranking of fitness values, reordering by a
//! permutation, row-major flattening, and Gaussian sampling in fixed-point
//! units from an injected noise source.

use vstd::prelude::*;
use crate::fixed::{SCALE, fits_i64, fx_add, fx_mul, fx_mul_spec, lemma_fx_mul_scale_identity};
use crate::NesError;

verus! {

/// Strict rank order on (key, index) pairs: ascending key, ties broken by
/// ascending original index, so ranking is deterministic.
pub open spec fn rank_before(k1: i64, i1: int, k2: i64, i2: int) -> bool {
    k1 < k2 || (k1 == k2 && i1 < i2)
}

/// Whether the index `k` appears somewhere in `p`.
pub open spec fn appears(p: Seq<usize>, k: int) -> bool {
    exists|i: int| 0 <= i < p.len() && (#[trigger] p[i]) as int == k
}

/// `p` lists every index of `key` exactly once, in stable ascending order of
/// the keyed values.
pub open spec fn is_argsort(key: Seq<i64>, p: Seq<usize>) -> bool {
    &&& p.len() == key.len()
    &&& (forall|i: int| 0 <= i < p.len() ==> (#[trigger] p[i]) < key.len())
    &&& (forall|i: int, j: int|
        0 <= i < j < p.len() ==> rank_before(
            key[#[trigger] p[i] as int],
            p[i] as int,
            key[#[trigger] p[j] as int],
            p[j] as int,
        ))
    &&& (forall|k: int| 0 <= k < key.len() ==> #[trigger] appears(p, k))
}

/// Stable argsort: returns the population indices ordered by ascending key,
/// equal keys kept in their original relative order.
pub fn argsort(v: &Vec<i64>) -> (r: Vec<usize>)
    ensures
        is_argsort(v@, r@),
{
    let n: usize = v.len();
    let mut p: Vec<usize> = Vec::new();
    let mut k: usize = 0;
    while k < n
        invariant
            k <= n,
            n == v@.len(),
            p@.len() == k,
            forall|i: int| 0 <= i < k ==> (#[trigger] p@[i]) < k,
            forall|i: int, j: int|
                0 <= i < j < k ==> rank_before(
                    v@[#[trigger] p@[i] as int],
                    p@[i] as int,
                    v@[#[trigger] p@[j] as int],
                    p@[j] as int,
                ),
            forall|t: int| 0 <= t < k ==> #[trigger] appears(p@, t),
        decreases n - k,
    {
        let ghost p0 = p@;
        let mut pos: usize = p.len();
        while pos > 0 && v[p[pos - 1]] > v[k]
            invariant
                pos <= p@.len(),
                p@ == p0,
                p@.len() == k,
                k < n,
                n == v@.len(),
                forall|i: int| 0 <= i < k ==> (#[trigger] p@[i]) < k,
                forall|t: int| pos <= t < k ==> v@[#[trigger] p@[t] as int] > v@[k as int],
            decreases pos,
        {
            pos = pos - 1;
        }
        proof {
            if pos > 0 {
                assert(v@[p0[pos - 1] as int] <= v@[k as int]);
            }
        }
        p.insert(pos, k);
        proof {
            let pn = p@;
            assert(pn == p0.insert(pos as int, k as usize));
            assert forall|i: int| 0 <= i < k + 1 implies (#[trigger] pn[i]) < k + 1 by {
                if i < pos {
                    assert(pn[i] == p0[i]);
                } else if i == pos {
                    assert(pn[i] == k as usize);
                } else {
                    assert(pn[i] == p0[i - 1]);
                }
            }
            assert forall|i: int, j: int| 0 <= i < j < k + 1 implies rank_before(
                v@[#[trigger] pn[i] as int],
                pn[i] as int,
                v@[#[trigger] pn[j] as int],
                pn[j] as int,
            ) by {
                if j < pos {
                    assert(pn[i] == p0[i] && pn[j] == p0[j]);
                } else if j == pos {
                    // every earlier entry ranks before the new index k
                    assert(pn[i] == p0[i] && pn[j] == k as usize);
                    if pos > 0 && i < pos - 1 {
                        assert(rank_before(
                            v@[p0[i] as int],
                            p0[i] as int,
                            v@[p0[pos - 1] as int],
                            p0[pos - 1] as int,
                        ));
                    }
                    assert(v@[p0[i] as int] <= v@[k as int]);
                    assert(p0[i] < k);
                } else if i < pos {
                    // both sides are old entries, at old positions i and j - 1
                    assert(pn[i] == p0[i] && pn[j] == p0[j - 1]);
                    assert(rank_before(
                        v@[p0[i] as int],
                        p0[i] as int,
                        v@[p0[j - 1] as int],
                        p0[j - 1] as int,
                    ));
                } else if i == pos {
                    assert(pn[i] == k as usize && pn[j] == p0[j - 1]);
                    assert(v@[p0[j - 1] as int] > v@[k as int]);
                } else {
                    assert(pn[i] == p0[i - 1] && pn[j] == p0[j - 1]);
                }
            }
            assert forall|t: int| 0 <= t < k + 1 implies #[trigger] appears(pn, t) by {
                if t == k {
                    assert(0 <= pos < pn.len() && pn[pos as int] as int == t);
                } else {
                    assert(appears(p0, t));
                    let i0 = choose|i0: int| 0 <= i0 < p0.len() && (#[trigger] p0[i0]) as int == t;
                    if i0 < pos {
                        assert(0 <= i0 < pn.len() && pn[i0] as int == t);
                    } else {
                        assert(0 <= i0 + 1 < pn.len() && pn[i0 + 1] as int == t);
                    }
                }
            }
        }
        k = k + 1;
    }
    p
}

/// Copies `vec` into the order given by `order`: entry `i` of the result is
/// entry `order[i]` of `vec`.
pub fn reorder_vec<T: Copy>(vec: &Vec<T>, order: &Vec<usize>) -> (r: Vec<T>)
    requires
        forall|i: int| 0 <= i < order@.len() ==> (#[trigger] order@[i]) < vec@.len(),
    ensures
        r@.len() == order@.len(),
        forall|i: int| 0 <= i < order@.len() ==> #[trigger] r@[i] == vec@[order@[i] as int],
{
    let mut r: Vec<T> = Vec::new();
    let mut i: usize = 0;
    while i < order.len()
        invariant
            i <= order@.len(),
            forall|t: int| 0 <= t < order@.len() ==> (#[trigger] order@[t]) < vec@.len(),
            r@.len() == i,
            forall|t: int| 0 <= t < i ==> #[trigger] r@[t] == vec@[order@[t] as int],
        decreases order@.len() - i,
    {
        r.push(vec[order[i]]);
        i = i + 1;
    }
    r
}

/// Fixed-width counterpart of `reorder_vec` for rows of scalars; same
/// order-by-permutation contract.
pub fn reorder_array<T: Copy>(array: &Vec<T>, order: &Vec<usize>) -> (r: Vec<T>)
    requires
        forall|i: int| 0 <= i < order@.len() ==> (#[trigger] order@[i]) < array@.len(),
    ensures
        r@.len() == order@.len(),
        forall|i: int| 0 <= i < order@.len() ==> #[trigger] r@[i] == array@[order@[i] as int],
{
    let mut r: Vec<T> = Vec::new();
    let mut i: usize = 0;
    while i < order.len()
        invariant
            i <= order@.len(),
            forall|t: int| 0 <= t < order@.len() ==> (#[trigger] order@[t]) < array@.len(),
            r@.len() == i,
            forall|t: int| 0 <= t < i ==> #[trigger] r@[t] == array@[order@[t] as int],
        decreases order@.len() - i,
    {
        r.push(array[order[i]]);
        i = i + 1;
    }
    r
}

/// Reordering by the identity permutation is a no-op.
pub proof fn lemma_reorder_identity<T>(v: Seq<T>, ord: Seq<usize>, r: Seq<T>)
    requires
        ord.len() == v.len(),
        forall|i: int| 0 <= i < ord.len() ==> (#[trigger] ord[i]) as int == i,
        r.len() == ord.len(),
        forall|i: int| 0 <= i < ord.len() ==> #[trigger] r[i] == v[ord[i] as int],
    ensures
        r =~= v,
{
}

/// Reordering a key sequence by its own argsort yields a sequence that is
/// sorted ascending by the original keys.
pub proof fn lemma_argsort_reorder_sorted(key: Seq<i64>, p: Seq<usize>, r: Seq<i64>)
    requires
        is_argsort(key, p),
        r.len() == p.len(),
        forall|i: int| 0 <= i < p.len() ==> #[trigger] r[i] == key[p[i] as int],
    ensures
        forall|i: int, j: int| 0 <= i < j < r.len() ==> #[trigger] r[i] <= #[trigger] r[j],
{
    assert forall|i: int, j: int| 0 <= i < j < r.len() implies #[trigger] r[i] <= #[trigger] r[j] by {
        assert(rank_before(key[p[i] as int], p[i] as int, key[p[j] as int], p[j] as int));
    }
}

/// On an already-sorted key sequence the stable argsort is the identity
/// permutation, so sorting twice changes nothing further.
pub proof fn lemma_argsort_of_sorted_is_identity(key: Seq<i64>, p: Seq<usize>)
    requires
        is_argsort(key, p),
        forall|i: int, j: int| 0 <= i < j < key.len() ==> #[trigger] key[i] <= #[trigger] key[j],
    ensures
        forall|i: int| 0 <= i < p.len() ==> (#[trigger] p[i]) as int == i,
{
    lemma_argsort_identity_upto(key, p, p.len() as int);
}

proof fn lemma_argsort_identity_upto(key: Seq<i64>, p: Seq<usize>, n: int)
    requires
        is_argsort(key, p),
        forall|i: int, j: int| 0 <= i < j < key.len() ==> #[trigger] key[i] <= #[trigger] key[j],
        0 <= n <= p.len(),
    ensures
        forall|i: int| 0 <= i < n ==> (#[trigger] p[i]) as int == i,
    decreases n,
{
    if n > 0 {
        lemma_argsort_identity_upto(key, p, n - 1);
        let m = n - 1;
        // p[m] cannot revisit an earlier index, so p[m] >= m.
        if (p[m] as int) < m {
            assert(p[p[m] as int] as int == p[m] as int);
            assert(rank_before(
                key[p[p[m] as int] as int],
                p[p[m] as int] as int,
                key[p[m] as int],
                p[m] as int,
            ));
            assert(false);
        }
        if (p[m] as int) > m {
            // index m itself must appear somewhere after position m,
            // which contradicts the stable ascending order.
            assert(appears(p, m));
            let t = choose|t: int| 0 <= t < p.len() && (#[trigger] p[t]) as int == m;
            if t < m {
                assert(p[t] as int == t);
                assert(false);
            } else if t == m {
                assert(false);
            } else {
                assert(rank_before(key[p[m] as int], p[m] as int, key[p[t] as int], p[t] as int));
                assert(key[m] <= key[p[m] as int]);
                assert(false);
            }
        }
    }
}

/// Two stable argsorts agree whenever their keys induce the same relative
/// order; the ranking ignores the keys' magnitudes.
pub proof fn lemma_argsort_respects_order(f1: Seq<i64>, f2: Seq<i64>, p1: Seq<usize>, p2: Seq<usize>)
    requires
        f1.len() == f2.len(),
        forall|i: int, j: int|
            0 <= i < f1.len() && 0 <= j < f1.len() ==> ((#[trigger] f1[i] < #[trigger] f1[j]) <==> (
            #[trigger] f2[i] < #[trigger] f2[j])),
        is_argsort(f1, p1),
        is_argsort(f2, p2),
    ensures
        p1 =~= p2,
{
    assert forall|i: int, j: int| 0 <= i < j < p1.len() implies rank_before(
        f2[#[trigger] p1[i] as int],
        p1[i] as int,
        f2[#[trigger] p1[j] as int],
        p1[j] as int,
    ) by {
        let a = p1[i] as int;
        let b = p1[j] as int;
        assert(rank_before(f1[a], a, f1[b], b));
        if f1[a] < f1[b] {
            assert(f2[a] < f2[b]);
        } else {
            assert(!(f1[a] < f1[b]) && !(f1[b] < f1[a]));
            assert(!(f2[a] < f2[b]) && !(f2[b] < f2[a]));
        }
    }
    assert(is_argsort(f2, p1));
    lemma_argsort_unique_upto(f2, p1, p2, p1.len() as int);
}

/// A key sequence has exactly one stable argsort.
pub proof fn lemma_argsort_unique(key: Seq<i64>, p: Seq<usize>, q: Seq<usize>)
    requires
        is_argsort(key, p),
        is_argsort(key, q),
    ensures
        p =~= q,
{
    lemma_argsort_unique_upto(key, p, q, p.len() as int);
}

/// Rank shaping ignores fitness magnitudes: fitness vectors with the same
/// relative order rank their members identically, so the shaped noise — and
/// with it the whole utility assignment — is the same.
pub proof fn lemma_shaping_ignores_magnitudes(
    f1: Seq<i64>,
    f2: Seq<i64>,
    nz: Seq<Seq<i64>>,
    p1: Seq<usize>,
    p2: Seq<usize>,
)
    requires
        f1.len() == f2.len(),
        forall|i: int, j: int|
            0 <= i < f1.len() && 0 <= j < f1.len() ==> ((#[trigger] f1[i] < #[trigger] f1[j]) <==> (
            #[trigger] f2[i] < #[trigger] f2[j])),
        is_argsort(f1, p1),
        is_argsort(f2, p2),
    ensures
        p1 =~= p2,
        reorder_seq(nz, p1) =~= reorder_seq(nz, p2),
{
    lemma_argsort_respects_order(f1, f2, p1, p2);
}

proof fn lemma_argsort_unique_upto(key: Seq<i64>, p: Seq<usize>, q: Seq<usize>, n: int)
    requires
        is_argsort(key, p),
        is_argsort(key, q),
        0 <= n <= p.len(),
    ensures
        forall|i: int| 0 <= i < n ==> #[trigger] p[i] == #[trigger] q[i],
    decreases n,
{
    if n > 0 {
        lemma_argsort_unique_upto(key, p, q, n - 1);
        let m = n - 1;
        if p[m] != q[m] {
            // p[m] occurs in q, but not in the shared prefix, so after m;
            // symmetrically q[m] occurs after m in p: both rank strictly
            // before the other, which is impossible.
            assert(appears(q, p[m] as int));
            let t = choose|t: int| 0 <= t < q.len() && (#[trigger] q[t]) as int == p[m] as int;
            assert(forall|i: int| 0 <= i < m ==> #[trigger] q[i] == p[i]);
            if t < m {
                assert(q[t] == p[t]);
                assert(rank_before(key[p[t] as int], p[t] as int, key[p[m] as int], p[m] as int));
                assert(false);
            }
            assert(t > m);
            assert(rank_before(key[q[m] as int], q[m] as int, key[q[t] as int], q[t] as int));
            assert(appears(p, q[m] as int));
            let s = choose|s: int| 0 <= s < p.len() && (#[trigger] p[s]) as int == q[m] as int;
            if s < m {
                assert(p[s] == q[s]);
                assert(rank_before(key[q[s] as int], q[s] as int, key[q[m] as int], q[m] as int));
                assert(false);
            }
            assert(s > m);
            assert(rank_before(key[p[m] as int], p[m] as int, key[p[s] as int], p[s] as int));
            assert(false);
        }
    }
}

/// The sequence `s` rearranged into the order given by `ord`.
pub open spec fn reorder_seq<A>(s: Seq<A>, ord: Seq<usize>) -> Seq<A> {
    Seq::new(ord.len(), |i: int| s[ord[i] as int])
}

/// The rows of a matrix as plain sequences.
pub open spec fn rows_view(m: Seq<Vec<i64>>) -> Seq<Seq<i64>> {
    Seq::new(m.len(), |i: int| m[i]@)
}

/// An element-for-element copy of one row of scalars.
pub fn copy_row(row: &Vec<i64>) -> (r: Vec<i64>)
    ensures
        r@ == row@,
{
    let mut r: Vec<i64> = Vec::new();
    let mut i: usize = 0;
    while i < row.len()
        invariant
            i <= row@.len(),
            r@ == row@.take(i as int),
        decreases row@.len() - i,
    {
        r.push(row[i]);
        proof {
            assert(r@ =~= row@.take(i + 1));
        }
        i = i + 1;
    }
    proof {
        assert(r@ =~= row@);
    }
    r
}

/// Copies whole rows into the order given by `order`, the reordering the
/// rank shaping applies to the noise matrix.
pub fn reorder_rows(rows: &Vec<Vec<i64>>, order: &Vec<usize>) -> (r: Vec<Vec<i64>>)
    requires
        forall|i: int| 0 <= i < order@.len() ==> (#[trigger] order@[i]) < rows@.len(),
    ensures
        r@.len() == order@.len(),
        forall|i: int|
            0 <= i < order@.len() ==> (#[trigger] r@[i])@ == rows@[order@[i] as int]@,
{
    let mut r: Vec<Vec<i64>> = Vec::new();
    let mut i: usize = 0;
    while i < order.len()
        invariant
            i <= order@.len(),
            forall|t: int| 0 <= t < order@.len() ==> (#[trigger] order@[t]) < rows@.len(),
            r@.len() == i,
            forall|t: int| 0 <= t < i ==> (#[trigger] r@[t])@ == rows@[order@[t] as int]@,
        decreases order@.len() - i,
    {
        let row: Vec<i64> = copy_row(&rows[order[i]]);
        r.push(row);
        i = i + 1;
    }
    r
}

/// Row-major index of entry (`i`, `j`) in a matrix with `cols` columns.
pub open spec fn row_major(cols: int, i: int, j: int) -> int {
    i * cols + j
}

/// Flattens equally long rows into one row-major sequence, the layout the
/// update step reads the noise matrix in.
pub fn array_from_vec_of_arrays<T: Copy>(vec: &Vec<Vec<T>>) -> (r: Vec<T>)
    requires
        vec@.len() >= 1,
        forall|i: int| 0 <= i < vec@.len() ==> (#[trigger] vec@[i])@.len() == vec@[0]@.len(),
        vec@.len() * vec@[0]@.len() <= usize::MAX,
    ensures
        r@.len() == vec@.len() * vec@[0]@.len(),
        forall|i: int, j: int|
            0 <= i < vec@.len() && 0 <= j < vec@[0]@.len() ==> r@[#[trigger] row_major(
                vec@[0]@.len() as int,
                i,
                j,
            )] == vec@[i]@[j],
{
    let rows: usize = vec.len();
    let cols: usize = vec[0].len();
    let mut r: Vec<T> = Vec::new();
    let mut i: usize = 0;
    while i < rows
        invariant
            i <= rows,
            rows == vec@.len(),
            cols == vec@[0]@.len(),
            forall|t: int| 0 <= t < vec@.len() ==> (#[trigger] vec@[t])@.len() == cols,
            rows * cols <= usize::MAX,
            r@.len() == i * cols,
            forall|a: int, b: int|
                0 <= a < i && 0 <= b < cols ==> r@[#[trigger] row_major(cols as int, a, b)]
                    == vec@[a]@[b],
        decreases rows - i,
    {
        let row: &Vec<T> = &vec[i];
        let mut j: usize = 0;
        proof {
            assert((i + 1) * cols <= rows * cols) by (nonlinear_arith)
                requires i + 1 <= rows, cols >= 0;
            assert((i + 1) * cols == i * cols + cols) by (nonlinear_arith);
        }
        while j < cols
            invariant
                j <= cols,
                i < rows,
                rows == vec@.len(),
                cols == vec@[0]@.len(),
                forall|t: int| 0 <= t < vec@.len() ==> (#[trigger] vec@[t])@.len() == cols,
                row@ == vec@[i as int]@,
                i * cols + cols <= usize::MAX,
                r@.len() == i * cols + j,
                forall|a: int, b: int|
                    0 <= a < i && 0 <= b < cols ==> r@[#[trigger] row_major(cols as int, a, b)]
                        == vec@[a]@[b],
                forall|b: int|
                    0 <= b < j ==> r@[#[trigger] row_major(cols as int, i as int, b)]
                        == vec@[i as int]@[b],
            decreases cols - j,
        {
            let ghost r0 = r@;
            r.push(row[j]);
            proof {
                assert forall|a: int, b: int| 0 <= a < i && 0 <= b < cols implies r@[
                    #[trigger] row_major(cols as int, a, b)] == vec@[a]@[b] by {
                    assert((a + 1) * cols <= i * cols && (a + 1) * cols == a * cols + cols)
                        by (nonlinear_arith)
                        requires a + 1 <= i, cols >= 0;
                    assert(row_major(cols as int, a, b) < r0.len());
                    assert(r@[row_major(cols as int, a, b)] == r0[row_major(cols as int, a, b)]);
                }
            }
            j = j + 1;
        }
        i = i + 1;
    }
    proof {
        assert(i == rows);
    }
    r
}

/// A supplier of standard-normal noise in fixed-point units. The optimizer
/// asks it for one row of draws per population member; how the draws are
/// produced (a seeded generator, a recorded sequence) is the implementor's
/// choice, but a row always has exactly the requested length.
pub trait NoiseSource {
    /// Hands out the next `len` draws.
    fn sample(&mut self, len: usize) -> (r: Vec<i64>)
        ensures
            r@.len() == len,
    ;
}

/// A deterministic noise source that replays a recorded sequence of draws,
/// cycling when it runs out and yielding zeros if the recording is empty.
pub struct ReplaySource {
    pub values: Vec<i64>,
    pub pos: usize,
}

/// The recording position a replay reads at its `i`-th draw: the stored
/// position normalized into range, then advanced one step per draw and
/// wrapped at the end of the recording.
pub open spec fn replay_index(pos: int, n: int, i: int) -> int
    recommends
        n >= 1,
        i >= 0,
    decreases i,
{
    if i <= 0 {
        if pos >= n {
            0
        } else {
            pos
        }
    } else {
        let prev = replay_index(pos, n, i - 1);
        if prev + 1 >= n {
            0
        } else {
            prev + 1
        }
    }
}

proof fn lemma_replay_index_in_range(pos: int, n: int, i: int)
    requires
        n >= 1,
        0 <= pos,
        0 <= i,
    ensures
        0 <= replay_index(pos, n, i) < n,
    decreases i,
{
    if i > 0 {
        lemma_replay_index_in_range(pos, n, i - 1);
    }
}

impl ReplaySource {
    /// Starts a replay at the beginning of the recorded draws.
    pub fn new(values: Vec<i64>) -> (r: ReplaySource)
        ensures
            r.values == values,
            r.pos == 0,
    {
        ReplaySource { values, pos: 0 }
    }

    /// The next `len` draws, pinned exactly: draw `i` is the recorded
    /// value at `replay_index(pos, n, i)`, or zero when nothing is
    /// recorded.
    pub fn replay(&mut self, len: usize) -> (r: Vec<i64>)
        ensures
            r@.len() == len,
            final(self).values == old(self).values,
            old(self).values@.len() == 0 ==> (final(self).pos == old(self).pos && (forall|i: int|
                0 <= i < len ==> #[trigger] r@[i] == 0)),
            old(self).values@.len() >= 1 ==> {
                &&& forall|i: int|
                    0 <= i < len ==> #[trigger] r@[i] == old(self).values@[replay_index(
                        old(self).pos as int,
                        old(self).values@.len() as int,
                        i,
                    )]
                &&& len == 0 ==> final(self).pos == old(self).pos
                &&& len >= 1 ==> final(self).pos as int == replay_index(
                    old(self).pos as int,
                    old(self).values@.len() as int,
                    len - 1,
                ) + 1
            },
    {
        let n: usize = self.values.len();
        let mut out: Vec<i64> = Vec::new();
        let mut i: usize = 0;
        while i < len
            invariant
                i <= len,
                out@.len() == i,
                self.values == old(self).values,
                n == self.values@.len(),
                n == 0 ==> (self.pos == old(self).pos && (forall|t: int|
                    0 <= t < i ==> #[trigger] out@[t] == 0)),
                n >= 1 ==> {
                    &&& forall|t: int|
                        0 <= t < i ==> #[trigger] out@[t] == self.values@[replay_index(
                            old(self).pos as int,
                            n as int,
                            t,
                        )]
                    &&& i == 0 ==> self.pos == old(self).pos
                    &&& i >= 1 ==> self.pos as int == replay_index(
                        old(self).pos as int,
                        n as int,
                        i - 1,
                    ) + 1
                },
            decreases len - i,
        {
            if n == 0 {
                out.push(0);
            } else {
                proof {
                    if i >= 1 {
                        lemma_replay_index_in_range(old(self).pos as int, n as int, i - 1);
                    }
                }
                if self.pos >= n {
                    self.pos = 0;
                }
                proof {
                    assert(self.pos as int == replay_index(old(self).pos as int, n as int, i as int));
                    lemma_replay_index_in_range(old(self).pos as int, n as int, i as int);
                }
                out.push(self.values[self.pos]);
                self.pos = self.pos + 1;
            }
            i = i + 1;
        }
        out
    }
}

impl NoiseSource for ReplaySource {
    fn sample(&mut self, len: usize) -> (r: Vec<i64>) {
        self.replay(len)
    }
}

/// One sampled component: `mean + draw * std` in fixed-point arithmetic.
pub open spec fn gauss_component(mean: int, std: int, z: int) -> int {
    mean + fx_mul_spec(z, std)
}

/// Whether a row of draws scales without leaving the scalar range: for
/// every entry, both the scaled draw and the shifted component fit.
pub open spec fn gauss_fits(mean: int, std: int, z: Seq<i64>) -> bool {
    forall|i: int|
        0 <= i < z.len() ==> (fits_i64(fx_mul_spec((#[trigger] z[i]) as int, std)) && fits_i64(
            gauss_component(mean, std, z[i] as int),
        ))
}

/// `v` is a row of Normal(`mean`, `std`) samples: each component comes from
/// some standard-normal draw by the component formula.
pub open spec fn gauss_row(mean: int, std: int, v: Seq<i64>) -> bool {
    exists|z: Seq<i64>|
        #[trigger] z.len() == v.len() && forall|i: int|
            0 <= i < v.len() ==> (#[trigger] v[i]) as int == gauss_component(mean, std, z[i] as int)
}

/// The outcome of scaling the draws `z`: the pinned sample row when every
/// component fits, and overflow otherwise.
pub open spec fn scaled_from(
    mean: int,
    std: int,
    shape: int,
    z: Seq<i64>,
    r: Result<Vec<i64>, NesError>,
) -> bool {
    &&& z.len() == shape
    &&& if gauss_fits(mean, std, z) {
        match r {
            Result::Ok(v) => v@.len() == shape && (forall|i: int|
                0 <= i < shape ==> (#[trigger] v@[i]) as int == gauss_component(
                    mean,
                    std,
                    z[i] as int,
                )),
            Result::Err(_) => false,
        }
    } else {
        r == Result::<Vec<i64>, NesError>::Err(NesError::OverflowError)
    }
}

/// Scales a row of standard-normal draws into Normal(`mean`, `std`)
/// samples. For every value of the draws the outcome is pinned: Ok with
/// `mean + draw * std` per component exactly when each component stays in
/// the scalar range, overflow otherwise.
pub fn scale_draws(draws: &Vec<i64>, mean: i64, std: i64) -> (r: Result<Vec<i64>, NesError>)
    requires
        std >= 0,
    ensures
        scaled_from(mean as int, std as int, draws@.len() as int, draws@, r),
        (r is Ok) <==> gauss_fits(mean as int, std as int, draws@),
        r matches Err(e) ==> e == NesError::OverflowError,
{
    let mut v: Vec<i64> = Vec::new();
    let mut i: usize = 0;
    while i < draws.len()
        invariant
            i <= draws@.len(),
            std >= 0,
            v@.len() == i,
            forall|t: int|
                0 <= t < i ==> (#[trigger] v@[t]) as int == gauss_component(
                    mean as int,
                    std as int,
                    draws@[t] as int,
                ),
            forall|t: int|
                0 <= t < i ==> (fits_i64(fx_mul_spec((#[trigger] draws@[t]) as int, std as int))
                    && fits_i64(gauss_component(mean as int, std as int, draws@[t] as int))),
        decreases draws@.len() - i,
    {
        match fx_mul(draws[i], std) {
            Option::None => {
                proof {
                    assert(!gauss_fits(mean as int, std as int, draws@));
                }
                return Err(NesError::OverflowError);
            },
            Option::Some(s) => {
                match fx_add(mean, s) {
                    Option::None => {
                        proof {
                            assert(!fits_i64(
                                gauss_component(mean as int, std as int, draws@[i as int] as int),
                            ));
                            assert(!gauss_fits(mean as int, std as int, draws@));
                        }
                        return Err(NesError::OverflowError);
                    },
                    Option::Some(c) => {
                        v.push(c);
                    },
                }
            },
        }
        i = i + 1;
    }
    Ok(v)
}

/// Draws a vector of `shape` components from Normal(`mean`, `std`). A
/// negative `std` is rejected before any sampling; otherwise the draws come
/// from `source` and go through `scale_draws`, so the call fails only when
/// a scaled component leaves the scalar range — and standard-normal
/// sampling (`mean` 0, `std` SCALE) always succeeds, returning the draws
/// themselves.
pub fn random_gaussian_vector<S: NoiseSource>(
    source: &mut S,
    shape: usize,
    mean: i64,
    std: i64,
) -> (r: Result<Vec<i64>, NesError>)
    ensures
        (r == Result::<Vec<i64>, NesError>::Err(NesError::ConfigurationError)) <==> std < 0,
        r matches Err(e) ==> (e == NesError::ConfigurationError || e == NesError::OverflowError),
        r matches Ok(v) ==> {
            &&& v@.len() == shape
            &&& gauss_row(mean as int, std as int, v@)
        },
        std >= 0 ==> exists|z: Seq<i64>|
            #[trigger] scaled_from(mean as int, std as int, shape as int, z, r),
        (mean == 0 && std == SCALE) ==> r is Ok,
{
    if std < 0 {
        return Err(NesError::ConfigurationError);
    }
    let draws: Vec<i64> = source.sample(shape);
    let r = scale_draws(&draws, mean, std);
    proof {
        assert(scaled_from(mean as int, std as int, shape as int, draws@, r));
        if mean == 0 && std == SCALE {
            assert forall|i: int| 0 <= i < draws@.len() implies (fits_i64(
                fx_mul_spec((#[trigger] draws@[i]) as int, SCALE as int),
            ) && fits_i64(gauss_component(0, SCALE as int, draws@[i] as int))) by {
                lemma_fx_mul_scale_identity(draws@[i] as int);
            }
            assert(gauss_fits(0, SCALE as int, draws@));
        }
        assert(r matches Result::Ok(v) ==> gauss_row(mean as int, std as int, v@));
    }
    r
}

/// Draws a `shape.0` by `shape.1` matrix from Normal(`mean`, `std`), row by
/// row in row-major order, under the same contract as
/// `random_gaussian_vector`: a negative `std` is the only configuration
/// error, and standard-normal sampling always succeeds.
pub fn random_gaussian_matrix<S: NoiseSource>(
    source: &mut S,
    shape: (usize, usize),
    mean: i64,
    std: i64,
) -> (r: Result<Vec<Vec<i64>>, NesError>)
    ensures
        (r == Result::<Vec<Vec<i64>>, NesError>::Err(NesError::ConfigurationError)) <==> std < 0,
        r matches Err(e) ==> (e == NesError::ConfigurationError || e == NesError::OverflowError),
        r matches Ok(m) ==> {
            &&& m@.len() == shape.0
            &&& forall|i: int| 0 <= i < shape.0 ==> (#[trigger] m@[i])@.len() == shape.1
            &&& forall|i: int|
                0 <= i < shape.0 ==> gauss_row(mean as int, std as int, (#[trigger] m@[i])@)
        },
        (mean == 0 && std == SCALE) ==> r is Ok,
{
    let (rows, cols) = shape;
    let mut m: Vec<Vec<i64>> = Vec::new();
    let mut i: usize = 0;
    if std < 0 {
        return Err(NesError::ConfigurationError);
    }
    while i < rows
        invariant
            i <= rows,
            std >= 0,
            m@.len() == i,
            forall|t: int| 0 <= t < i ==> (#[trigger] m@[t])@.len() == cols,
            forall|t: int|
                0 <= t < i ==> gauss_row(mean as int, std as int, (#[trigger] m@[t])@),
        decreases rows - i,
    {
        match random_gaussian_vector(source, cols, mean, std) {
            Ok(row) => {
                m.push(row);
            },
            Err(e) => {
                return Err(e);
            },
        }
        i = i + 1;
    }
    Ok(m)
}

} // verus!
