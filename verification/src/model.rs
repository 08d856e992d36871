//! The mathematical model of the pipeline: column extraction, vector
//! normalization and weighting, ideal solutions, distances, and closeness,
//! all as specification functions over integer sequences.

use vstd::prelude::*;
use crate::arith::{sq, tdiv, isqrt, closeness};
use crate::arith::{lemma_isqrt_props, lemma_abs_le_isqrt};

verus! {

/// The integer view of a sequence of fixed-point matrix entries.
pub open spec fn ints(s: Seq<i64>) -> Seq<int> {
    s.map_values(|x: i64| x as int)
}

/// The integer view of a sequence of fixed-point weights.
pub open spec fn weights_int(s: Seq<u64>) -> Seq<int> {
    s.map_values(|x: u64| x as int)
}

/// Column `j` of a column-major flat matrix with `r` rows: the contiguous
/// slice `m[j*r .. (j+1)*r]`.
pub open spec fn column(m: Seq<int>, r: int, j: int) -> Seq<int> {
    m.subrange(j * r, j * r + r)
}

/// Sum of the squares of the entries of `s`.
pub open spec fn sum_sq(s: Seq<int>) -> int
    decreases s.len(),
{
    if s.len() == 0 {
        0
    } else {
        sum_sq(s.drop_last()) + sq(s.last())
    }
}

/// The Euclidean norm of a column, rounded down to an integer. A column
/// in nano units has a norm in nano units again.
pub open spec fn norm_of(col: Seq<int>) -> int {
    isqrt(sum_sq(col))
}

/// A column after vector normalization and weighting: every entry is
/// divided by the column norm and multiplied by the criterion's weight.
pub open spec fn weighted(col: Seq<int>, w: int) -> Seq<int> {
    col.map_values(|x: int| tdiv(x * w, norm_of(col)))
}

/// All columns of the matrix after normalization and weighting.
pub open spec fn weighted_cols(m: Seq<int>, r: int, w: Seq<int>) -> Seq<Seq<int>> {
    Seq::new(w.len(), |j: int| weighted(column(m, r, j), w[j]))
}

/// The greatest entry of a non-empty sequence.
pub open spec fn seq_max(s: Seq<int>) -> int
    recommends
        s.len() > 0,
    decreases s.len(),
{
    if s.len() <= 1 {
        s[0]
    } else {
        let m = seq_max(s.drop_last());
        if s.last() > m {
            s.last()
        } else {
            m
        }
    }
}

/// The least entry of a non-empty sequence.
pub open spec fn seq_min(s: Seq<int>) -> int
    recommends
        s.len() > 0,
    decreases s.len(),
{
    if s.len() <= 1 {
        s[0]
    } else {
        let m = seq_min(s.drop_last());
        if s.last() < m {
            s.last()
        } else {
            m
        }
    }
}

/// The positive ideal value of a weighted column: its best entry, which is
/// the maximum for a benefit criterion and the minimum for a cost one.
pub open spec fn pos_ideal(t: Seq<int>, benefit: bool) -> int {
    if benefit {
        seq_max(t)
    } else {
        seq_min(t)
    }
}

/// The negative ideal value of a weighted column: its worst entry.
pub open spec fn neg_ideal(t: Seq<int>, benefit: bool) -> int {
    if benefit {
        seq_min(t)
    } else {
        seq_max(t)
    }
}

/// Squared Euclidean distance of alternative `i` to the positive ideal
/// profile, summed over the weighted columns.
pub open spec fn dist_sq_pos(tcols: Seq<Seq<int>>, d: Seq<bool>, i: int) -> int
    recommends
        tcols.len() == d.len(),
    decreases tcols.len(),
{
    if tcols.len() == 0 {
        0
    } else {
        dist_sq_pos(tcols.drop_last(), d.drop_last(), i)
            + sq(tcols.last()[i] - pos_ideal(tcols.last(), d.last()))
    }
}

/// Squared Euclidean distance of alternative `i` to the negative ideal
/// profile, summed over the weighted columns.
pub open spec fn dist_sq_neg(tcols: Seq<Seq<int>>, d: Seq<bool>, i: int) -> int
    recommends
        tcols.len() == d.len(),
    decreases tcols.len(),
{
    if tcols.len() == 0 {
        0
    } else {
        dist_sq_neg(tcols.drop_last(), d.drop_last(), i)
            + sq(tcols.last()[i] - neg_ideal(tcols.last(), d.last()))
    }
}

/// The relative closeness of alternative `i`: the whole pipeline, from the
/// flat column-major matrix to the score, as one specification.
pub open spec fn score_of(m: Seq<int>, w: Seq<int>, d: Seq<bool>, r: int, i: int) -> int {
    let t = weighted_cols(m, r, w);
    closeness(isqrt(dist_sq_pos(t, d, i)), isqrt(dist_sq_neg(t, d, i)))
}

/// The shape checks that precede any computation: as many weights as
/// directions, at least one criterion, and a flat length that is a
/// non-zero multiple of the criterion count.
pub open spec fn shape_ok(wl: int, dl: int, fl: int) -> bool {
    wl == dl && wl > 0 && fl > 0 && fl % wl == 0
}

/// Some criterion column is entirely zero, so its norm vanishes and it
/// cannot be normalized.
pub open spec fn degenerate(m: Seq<int>, r: int, c: int) -> bool {
    exists|j: int| 0 <= j < c && #[trigger] sum_sq(column(m, r, j)) == 0
}

/// The integer view of a vector of materialized columns.
pub open spec fn cols_view(tcols: Seq<Vec<i64>>) -> Seq<Seq<int>> {
    Seq::new(tcols.len(), |j: int| ints(tcols[j]@))
}

/// A sum of squares is never negative.
pub proof fn lemma_sum_sq_nonneg(s: Seq<int>)
    ensures
        sum_sq(s) >= 0,
    decreases s.len(),
{
    if s.len() > 0 {
        lemma_sum_sq_nonneg(s.drop_last());
        assert(sq(s.last()) >= 0) by (nonlinear_arith);
    }
}

/// Each entry's square is bounded by the whole sum of squares.
pub proof fn lemma_sq_le_sum_sq(s: Seq<int>, i: int)
    requires
        0 <= i < s.len(),
    ensures
        sq(s[i]) <= sum_sq(s),
    decreases s.len(),
{
    lemma_sum_sq_nonneg(s.drop_last());
    assert(sq(s.last()) >= 0) by (nonlinear_arith);
    if i < s.len() - 1 {
        lemma_sq_le_sum_sq(s.drop_last(), i);
    }
}

/// Every entry's magnitude is bounded by the column norm.
pub proof fn lemma_entry_le_norm(s: Seq<int>, i: int)
    requires
        0 <= i < s.len(),
    ensures
        -norm_of(s) <= s[i] <= norm_of(s),
{
    lemma_sq_le_sum_sq(s, i);
    lemma_abs_le_isqrt(s[i], sum_sq(s));
}

/// The maximum of a non-empty sequence is one of its entries, and bounds
/// every entry from above.
pub proof fn lemma_seq_max_props(s: Seq<int>)
    requires
        s.len() > 0,
    ensures
        exists|k: int| 0 <= k < s.len() && s[k] == seq_max(s),
        forall|k: int| 0 <= k < s.len() ==> #[trigger] s[k] <= seq_max(s),
    decreases s.len(),
{
    if s.len() == 1 {
        assert(s[0] == seq_max(s));
    } else {
        let pre = s.drop_last();
        lemma_seq_max_props(pre);
        assert(forall|k: int| 0 <= k < pre.len() ==> #[trigger] s[k] == pre[k]);
        let kk = choose|k: int| 0 <= k < pre.len() && #[trigger] pre[k] == seq_max(pre);
        if s.last() > seq_max(pre) {
            assert(s[s.len() - 1] == seq_max(s));
        } else {
            assert(s[kk] == seq_max(s));
        }
    }
}

/// The minimum of a non-empty sequence is one of its entries, and bounds
/// every entry from below.
pub proof fn lemma_seq_min_props(s: Seq<int>)
    requires
        s.len() > 0,
    ensures
        exists|k: int| 0 <= k < s.len() && s[k] == seq_min(s),
        forall|k: int| 0 <= k < s.len() ==> #[trigger] s[k] >= seq_min(s),
    decreases s.len(),
{
    if s.len() == 1 {
        assert(s[0] == seq_min(s));
    } else {
        let pre = s.drop_last();
        lemma_seq_min_props(pre);
        assert(forall|k: int| 0 <= k < pre.len() ==> #[trigger] s[k] == pre[k]);
        let kk = choose|k: int| 0 <= k < pre.len() && #[trigger] pre[k] == seq_min(pre);
        if s.last() < seq_min(pre) {
            assert(s[s.len() - 1] == seq_min(s));
        } else {
            assert(s[kk] == seq_min(s));
        }
    }
}

/// Extending a prefix of columns by one column adds that column's squared
/// deviation from its ideal values.
pub proof fn lemma_dist_sq_take_step(t: Seq<Seq<int>>, d: Seq<bool>, i: int, j: int)
    requires
        t.len() == d.len(),
        0 <= j < t.len(),
    ensures
        dist_sq_pos(t.take(j + 1), d.take(j + 1), i) == dist_sq_pos(t.take(j), d.take(j), i) + sq(
            t[j][i] - pos_ideal(t[j], d[j]),
        ),
        dist_sq_neg(t.take(j + 1), d.take(j + 1), i) == dist_sq_neg(t.take(j), d.take(j), i) + sq(
            t[j][i] - neg_ideal(t[j], d[j]),
        ),
{
    assert(t.take(j + 1).drop_last() =~= t.take(j));
    assert(d.take(j + 1).drop_last() =~= d.take(j));
    assert(t.take(j + 1).last() == t[j]);
    assert(d.take(j + 1).last() == d[j]);
}

/// The distance sums are never negative.
pub proof fn lemma_dist_sq_nonneg(tcols: Seq<Seq<int>>, d: Seq<bool>, i: int)
    ensures
        dist_sq_pos(tcols, d, i) >= 0,
        dist_sq_neg(tcols, d, i) >= 0,
    decreases tcols.len(),
{
    if tcols.len() > 0 {
        lemma_dist_sq_nonneg(tcols.drop_last(), d.drop_last(), i);
        assert(sq(tcols.last()[i] - pos_ideal(tcols.last(), d.last())) >= 0) by (nonlinear_arith);
        assert(sq(tcols.last()[i] - neg_ideal(tcols.last(), d.last())) >= 0) by (nonlinear_arith);
    }
}

} // verus!
