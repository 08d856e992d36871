//! Laws of the ranking pipeline, proved against the same model that the
//! executable functions are specified with.

use vstd::prelude::*;
use vstd::arithmetic::div_mod::{lemma_div_is_ordered, lemma_div_multiples_vanish};
use crate::arith::{
    SCALE, sq, tdiv, isqrt, lemma_isqrt_props, lemma_isqrt_zero, lemma_isqrt_of_square,
};
use crate::model::{
    column, sum_sq, norm_of, weighted, weighted_cols, seq_max, seq_min, pos_ideal, neg_ideal,
    dist_sq_pos, dist_sq_neg, score_of, lemma_sum_sq_nonneg, lemma_seq_max_props,
    lemma_seq_min_props, lemma_dist_sq_nonneg,
};

verus! {

/// Equal ideal values per column make both distance sums equal.
proof fn lemma_dist_eq_when_ideals_eq(t: Seq<Seq<int>>, d: Seq<bool>, i: int)
    requires
        t.len() == d.len(),
        forall|j: int|
            0 <= j < t.len() ==> pos_ideal(#[trigger] t[j], d[j]) == neg_ideal(t[j], d[j]),
    ensures
        dist_sq_pos(t, d, i) == dist_sq_neg(t, d, i),
    decreases t.len(),
{
    if t.len() > 0 {
        assert(forall|j: int| 0 <= j < t.len() - 1 ==> #[trigger] t.drop_last()[j] == t[j]);
        lemma_dist_eq_when_ideals_eq(t.drop_last(), d.drop_last(), i);
    }
}

/// Law: a problem with a single alternative ranks it with a score of
/// exactly one half, whatever the weights and directions: its value in
/// every criterion is at once the best and the worst one, so both
/// distances agree.
pub proof fn lemma_single_alternative(m: Seq<int>, w: Seq<int>, d: Seq<bool>)
    requires
        w.len() == d.len(),
        w.len() >= 1,
        m.len() == w.len(),
    ensures
        score_of(m, w, d, 1, 0) == SCALE as int / 2,
{
    let t = weighted_cols(m, 1, w);
    assert forall|j: int| 0 <= j < t.len() implies pos_ideal(#[trigger] t[j], d[j]) == neg_ideal(
        t[j],
        d[j],
    ) by {
        assert(column(m, 1, j).len() == 1);
        assert(t[j].len() == 1);
        assert(seq_max(t[j]) == t[j][0]);
        assert(seq_min(t[j]) == t[j][0]);
    }
    lemma_dist_eq_when_ideals_eq(t, d, 0);
    let s = dist_sq_pos(t, d, 0);
    lemma_dist_sq_nonneg(t, d, 0);
    lemma_isqrt_props(s);
    let a = isqrt(s);
    if a != 0 {
        assert(a * SCALE == (a + a) * (SCALE as int / 2)) by (nonlinear_arith)
            requires SCALE as int == 2 * (SCALE as int / 2)
        ;
        lemma_div_multiples_vanish(SCALE as int / 2, a + a);
    }
}

/// A flat column-major matrix with column `j` taken out.
pub open spec fn remove_column(m: Seq<int>, r: int, j: int) -> Seq<int> {
    m.subrange(0, j * r) + m.subrange((j + 1) * r, m.len() as int)
}

/// Taking one column out of a distance sum leaves the sum over the other
/// columns plus that column's own contribution.
proof fn lemma_dist_sq_remove(t: Seq<Seq<int>>, d: Seq<bool>, i: int, j: int)
    requires
        t.len() == d.len(),
        0 <= j < t.len(),
    ensures
        dist_sq_pos(t, d, i) == dist_sq_pos(t.remove(j), d.remove(j), i) + sq(
            t[j][i] - pos_ideal(t[j], d[j]),
        ),
        dist_sq_neg(t, d, i) == dist_sq_neg(t.remove(j), d.remove(j), i) + sq(
            t[j][i] - neg_ideal(t[j], d[j]),
        ),
    decreases t.len(),
{
    if j == t.len() - 1 {
        assert(t.remove(j) =~= t.drop_last());
        assert(d.remove(j) =~= d.drop_last());
    } else {
        lemma_dist_sq_remove(t.drop_last(), d.drop_last(), i, j);
        assert(t.drop_last()[j] == t[j]);
        assert(d.drop_last()[j] == d[j]);
        assert(t.remove(j).drop_last() =~= t.drop_last().remove(j));
        assert(d.remove(j).drop_last() =~= d.drop_last().remove(j));
        assert(t.remove(j).last() == t.last());
        assert(d.remove(j).last() == d.last());
    }
}

/// Law: a criterion whose weight is zero contributes nothing. Every
/// alternative's score in the full problem equals its score in the
/// problem with that criterion's column, weight and direction removed.
/// (The zero-weighted column itself must still be normalizable, as the
/// full problem rejects an all-zero column.)
pub proof fn lemma_zero_weight_column(
    m: Seq<int>,
    w: Seq<int>,
    d: Seq<bool>,
    r: int,
    j: int,
    i: int,
)
    requires
        w.len() == d.len(),
        w.len() >= 2,
        r >= 1,
        m.len() == w.len() * r,
        0 <= j < w.len(),
        0 <= i < r,
        w[j] == 0,
        sum_sq(column(m, r, j)) != 0,
    ensures
        score_of(m, w, d, r, i) == score_of(
            remove_column(m, r, j),
            w.remove(j),
            d.remove(j),
            r,
            i,
        ),
{
    let c = w.len() as int;
    let m2 = remove_column(m, r, j);
    let t = weighted_cols(m, r, w);
    let t2 = weighted_cols(m2, r, w.remove(j));

    // The remaining columns of the reduced matrix are the original ones.
    assert forall|k: int| 0 <= k < c - 1 implies column(m2, r, k) =~= column(
        m,
        r,
        if k < j { k } else { k + 1 },
    ) by {
        assert((j + 1) * r <= c * r && j * r + r == (j + 1) * r) by (nonlinear_arith)
            requires j + 1 <= c && r >= 0
        ;
        assert(m2.len() == m.len() - r);
        if k < j {
            assert(k * r + r <= j * r) by (nonlinear_arith)
                requires k + 1 <= j && r >= 0
            ;
            assert(forall|x: int|
                k * r <= x < k * r + r ==> #[trigger] m2[x] == m[x]);
        } else {
            assert(j * r <= k * r && k * r + r <= (c - 1) * r) by (nonlinear_arith)
                requires j <= k && k + 1 <= c - 1 && r >= 0
            ;
            assert((c - 1) * r == c * r - r) by (nonlinear_arith);
            assert(forall|x: int|
                k * r <= x < k * r + r ==> #[trigger] m2[x] == m[x + r]);
            assert((k + 1) * r == k * r + r) by (nonlinear_arith);
        }
    }
    assert(t2 =~= t.remove(j));

    // The zero-weighted column normalizes to all zeros, whose ideal
    // values are zero, so its contribution to each distance is zero.
    let colj = column(m, r, j);
    lemma_sum_sq_nonneg(colj);
    lemma_isqrt_zero(sum_sq(colj));
    lemma_isqrt_props(sum_sq(colj));
    assert(norm_of(colj) > 0);
    assert(colj.len() == r) by {
        assert(j * r + r <= c * r) by (nonlinear_arith)
            requires j + 1 <= c && r >= 0
        ;
    }
    let tj = t[j];
    assert(tj =~= colj.map_values(|x: int| tdiv(x * 0, norm_of(colj))));
    assert forall|x: int| 0 <= x < tj.len() implies #[trigger] tj[x] == 0 by {
        assert(colj[x] * 0 == 0) by (nonlinear_arith);
    }
    assert(tj.len() == r >= 1);
    lemma_seq_max_props(tj);
    lemma_seq_min_props(tj);
    assert(seq_max(tj) == 0 && seq_min(tj) == 0);
    assert(pos_ideal(tj, d[j]) == 0 && neg_ideal(tj, d[j]) == 0);

    lemma_dist_sq_remove(t, d, i, j);
    assert(sq(tj[i] - 0) == 0) by (nonlinear_arith)
        requires tj[i] == 0
    ;
    assert(dist_sq_pos(t, d, i) == dist_sq_pos(t2, d.remove(j), i));
    assert(dist_sq_neg(t, d, i) == dist_sq_neg(t2, d.remove(j), i));
}

/// With a single criterion the score of row `i` is the position of its
/// weighted value between the column's extremes: `(t[i]-mn)*SCALE/(mx-mn)`
/// for a benefit criterion, and `(mx-t[i])*SCALE/(mx-mn)` for a cost one.
proof fn lemma_single_criterion_scores(m: Seq<int>, w0: int, i: int)
    requires
        m.len() >= 1,
        0 <= i < m.len(),
    ensures
        ({
            let t = weighted(m, w0);
            let mx = seq_max(t);
            let mn = seq_min(t);
            &&& score_of(m, seq![w0], seq![true], m.len() as int, i) == (if mx - mn == 0 {
                SCALE as int / 2
            } else {
                ((t[i] - mn) * (SCALE as int)) / (mx - mn)
            })
            &&& score_of(m, seq![w0], seq![false], m.len() as int, i) == (if mx - mn == 0 {
                SCALE as int / 2
            } else {
                ((mx - t[i]) * (SCALE as int)) / (mx - mn)
            })
        }),
{
    let r = m.len() as int;
    let t = weighted(m, w0);
    assert(column(m, r, 0) =~= m);
    let tb = weighted_cols(m, r, seq![w0]);
    assert(tb.len() == 1);
    assert(tb[0] == t);
    let mx = seq_max(t);
    let mn = seq_min(t);
    lemma_seq_max_props(t);
    lemma_seq_min_props(t);
    assert(mn <= t[i] <= mx);

    let db = seq![true];
    let dc = seq![false];
    assert(tb.drop_last().len() == 0 && db.drop_last().len() == 0 && dc.drop_last().len() == 0);
    assert(dist_sq_pos(tb.drop_last(), db.drop_last(), i) == 0);
    assert(dist_sq_neg(tb.drop_last(), db.drop_last(), i) == 0);
    assert(dist_sq_pos(tb.drop_last(), dc.drop_last(), i) == 0);
    assert(dist_sq_neg(tb.drop_last(), dc.drop_last(), i) == 0);
    assert(dist_sq_pos(tb, db, i) == sq(t[i] - mx));
    assert(dist_sq_neg(tb, db, i) == sq(t[i] - mn));
    assert(dist_sq_pos(tb, dc, i) == sq(t[i] - mn));
    assert(dist_sq_neg(tb, dc, i) == sq(t[i] - mx));

    assert(sq(t[i] - mx) == sq(mx - t[i]) && sq(t[i] - mn) == sq(t[i] - mn)) by (nonlinear_arith);
    lemma_isqrt_of_square(mx - t[i]);
    lemma_isqrt_of_square(t[i] - mn);
    assert(isqrt(dist_sq_pos(tb, db, i)) == mx - t[i]);
    assert(isqrt(dist_sq_neg(tb, db, i)) == t[i] - mn);
    assert((mx - t[i]) + (t[i] - mn) == mx - mn);
}

/// Law: with a single criterion, a row whose weighted value is at least
/// another's never scores lower under the benefit direction, and after
/// flipping the direction to cost it never scores higher: the flip cannot
/// increase the criterion's favor for a previously favored row.
pub proof fn lemma_single_criterion_monotone(m: Seq<int>, w0: int, i: int, k: int)
    requires
        m.len() >= 1,
        0 <= i < m.len(),
        0 <= k < m.len(),
        weighted(m, w0)[i] >= weighted(m, w0)[k],
    ensures
        score_of(m, seq![w0], seq![true], m.len() as int, i) >= score_of(
            m,
            seq![w0],
            seq![true],
            m.len() as int,
            k,
        ),
        score_of(m, seq![w0], seq![false], m.len() as int, i) <= score_of(
            m,
            seq![w0],
            seq![false],
            m.len() as int,
            k,
        ),
{
    lemma_single_criterion_scores(m, w0, i);
    lemma_single_criterion_scores(m, w0, k);
    let t = weighted(m, w0);
    let mx = seq_max(t);
    let mn = seq_min(t);
    lemma_seq_max_props(t);
    lemma_seq_min_props(t);
    if mx - mn != 0 {
        let dd = mx - mn;
        assert(dd > 0);
        assert((t[k] - mn) * (SCALE as int) <= (t[i] - mn) * (SCALE as int)) by (nonlinear_arith)
            requires t[k] <= t[i]
        ;
        lemma_div_is_ordered((t[k] - mn) * (SCALE as int), (t[i] - mn) * (SCALE as int), dd);
        assert((mx - t[i]) * (SCALE as int) <= (mx - t[k]) * (SCALE as int)) by (nonlinear_arith)
            requires t[k] <= t[i]
        ;
        lemma_div_is_ordered((mx - t[i]) * (SCALE as int), (mx - t[k]) * (SCALE as int), dd);
    }
}

/// Law: with a single criterion, flipping its direction from benefit to
/// cost inverts the order of any two alternatives exactly. The one
/// proviso is fixed-point rounding: the two rows' scores must not be
/// rounded to an exact tie in either problem, since a tie carries no
/// order to invert.
pub proof fn lemma_single_criterion_flip(m: Seq<int>, w0: int, i: int, k: int)
    requires
        m.len() >= 1,
        0 <= i < m.len(),
        0 <= k < m.len(),
        score_of(m, seq![w0], seq![true], m.len() as int, i) != score_of(
            m,
            seq![w0],
            seq![true],
            m.len() as int,
            k,
        ),
        score_of(m, seq![w0], seq![false], m.len() as int, i) != score_of(
            m,
            seq![w0],
            seq![false],
            m.len() as int,
            k,
        ),
    ensures
        score_of(m, seq![w0], seq![true], m.len() as int, i) > score_of(
            m,
            seq![w0],
            seq![true],
            m.len() as int,
            k,
        ) <==> score_of(m, seq![w0], seq![false], m.len() as int, k) > score_of(
            m,
            seq![w0],
            seq![false],
            m.len() as int,
            i,
        ),
{
    lemma_single_criterion_scores(m, w0, i);
    lemma_single_criterion_scores(m, w0, k);
    let t = weighted(m, w0);
    let mx = seq_max(t);
    let mn = seq_min(t);
    lemma_seq_max_props(t);
    lemma_seq_min_props(t);
    if mx - mn != 0 {
        let dd = mx - mn;
        assert(dd > 0);
        if t[i] <= t[k] {
            assert((t[i] - mn) * (SCALE as int) <= (t[k] - mn) * (SCALE as int)) by (
            nonlinear_arith)
                requires t[i] <= t[k]
            ;
            lemma_div_is_ordered((t[i] - mn) * (SCALE as int), (t[k] - mn) * (SCALE as int), dd);
        }
        if t[k] <= t[i] {
            assert((t[k] - mn) * (SCALE as int) <= (t[i] - mn) * (SCALE as int)) by (
            nonlinear_arith)
                requires t[k] <= t[i]
            ;
            lemma_div_is_ordered((t[k] - mn) * (SCALE as int), (t[i] - mn) * (SCALE as int), dd);
        }
        if mx - t[i] <= mx - t[k] {
            assert((mx - t[i]) * (SCALE as int) <= (mx - t[k]) * (SCALE as int)) by (
            nonlinear_arith)
                requires mx - t[i] <= mx - t[k]
            ;
            lemma_div_is_ordered((mx - t[i]) * (SCALE as int), (mx - t[k]) * (SCALE as int), dd);
        }
        if mx - t[k] <= mx - t[i] {
            assert((mx - t[k]) * (SCALE as int) <= (mx - t[i]) * (SCALE as int)) by (
            nonlinear_arith)
                requires mx - t[k] <= mx - t[i]
            ;
            lemma_div_is_ordered((mx - t[k]) * (SCALE as int), (mx - t[i]) * (SCALE as int), dd);
        }
    }
}

} // verus!
