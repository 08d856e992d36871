//! The executable pipeline: shape validation, normalization and weighting,
//! ideal solutions, distances, closeness, and the final descending sort.

use vstd::prelude::*;
use vstd::seq_lib::group_to_multiset_ensures;
use crate::arith::{
    SCALE, VALUE_LIMIT, WEIGHT_LIMIT, DIM_LIMIT, sq, tdiv, isqrt, closeness, isqrt_u128,
    scale_value, closeness_exec, lemma_isqrt_zero,
};
use crate::model::{
    ints, weights_int, column, sum_sq, norm_of, weighted, weighted_cols, seq_max, seq_min,
    pos_ideal, neg_ideal, dist_sq_pos, dist_sq_neg, score_of, shape_ok, degenerate, cols_view,
    lemma_sum_sq_nonneg, lemma_entry_le_norm, lemma_seq_max_props, lemma_seq_min_props,
    lemma_dist_sq_take_step,
};
use vstd::arithmetic::div_mod::lemma_fundamental_div_mod;

verus! {

/// One entry of the ranking: the original zero-based row index of an
/// alternative, and its relative closeness in fixed-point form, a value
/// in `[0, SCALE]` standing for a real score in `[0, 1]`.
#[derive(Clone, Copy, PartialEq, Eq, Structural, Debug)]
pub struct Alternative {
    pub value: u64,
    pub id: usize,
}

impl Alternative {
    /// Pairs a closeness value with the row index it scores.
    pub fn new(value: u64, id: usize) -> (a: Alternative)
        ensures
            a.value == value,
            a.id == id,
    {
        Alternative { value, id }
    }
}

/// The ways an input can be rejected before any computation starts.
#[derive(Clone, Copy, PartialEq, Eq, Structural, Debug)]
pub enum TopsisError {
    /// The weights and the direction flags differ in number.
    ShapeMismatch,
    /// There is no criterion, no alternative, or the flat matrix length is
    /// not a multiple of the criterion count.
    InvalidShape,
    /// A criterion column is entirely zero: its Euclidean norm vanishes, so
    /// the column cannot be normalized. This library reports the condition
    /// as a hard error rather than letting undefined values flow through.
    DegenerateColumn,
}

/// The ranking order: higher closeness first; exact ties keep the
/// alternative with the smaller row index first.
pub open spec fn comes_before(a: Alternative, b: Alternative) -> bool {
    a.value > b.value || (a.value == b.value && a.id <= b.id)
}

/// A sequence sorted by the ranking order.
pub open spec fn ranked(s: Seq<Alternative>) -> bool {
    forall|k1: int, k2: int|
        0 <= k1 < k2 < s.len() ==> comes_before(#[trigger] s[k1], #[trigger] s[k2])
}

fn comes_before_exec(a: Alternative, b: Alternative) -> (r: bool)
    ensures
        r == comes_before(a, b),
{
    a.value > b.value || (a.value == b.value && a.id <= b.id)
}

/// Inserting an element anywhere in a sequence adds it to the multiset of
/// the sequence's elements.
proof fn lemma_insert_to_multiset(s: Seq<Alternative>, p: int, x: Alternative)
    requires
        0 <= p <= s.len(),
    ensures
        s.insert(p, x).to_multiset() == s.to_multiset().insert(x),
{
    broadcast use group_to_multiset_ensures;

    let s2 = s.insert(p, x);
    assert(s2.remove(p) =~= s);
    assert(s2[p] == x);
    assert(s2.remove(p).to_multiset() == s2.to_multiset().remove(x));
    assert(s2.contains(x));
    assert(s2.to_multiset().count(x) > 0);
    assert(s2.to_multiset() =~= s.to_multiset().insert(x));
}

/// Sorts alternatives by descending closeness; exact ties come out in
/// ascending row order. The result holds exactly the input's entries.
#[verifier::loop_isolation(false)]
pub fn rank_sort(input: Vec<Alternative>) -> (out: Vec<Alternative>)
    ensures
        out@.len() == input@.len(),
        out@.to_multiset() == input@.to_multiset(),
        ranked(out@),
{
    broadcast use group_to_multiset_ensures;

    let mut out: Vec<Alternative> = Vec::new();
    let mut idx: usize = 0;
    proof {
        assert(out@ =~= input@.subrange(0, 0));
    }
    while idx < input.len()
        invariant
            idx <= input.len(),
            out@.len() == idx,
            out@.to_multiset() == input@.subrange(0, idx as int).to_multiset(),
            ranked(out@),
        decreases input.len() - idx,
    {
        let x = input[idx];
        let ghost out0 = out@;
        let mut p: usize = 0;
        while p < out.len() && comes_before_exec(out[p], x)
            invariant
                p <= out@.len(),
                out@ == out0,
                forall|k: int| 0 <= k < p ==> comes_before(#[trigger] out@[k], x),
            decreases out@.len() - p,
        {
            p += 1;
        }
        out.insert(p, x);
        proof {
            lemma_insert_to_multiset(out0, p as int, x);
            assert(input@.subrange(0, idx as int + 1) =~= input@.subrange(0, idx as int).push(
                input@[idx as int],
            ));
            assert(forall|k: int| 0 <= k < p ==> out@[k] == out0[k]);
            assert(out@[p as int] == x);
            assert(forall|k: int| p < k < out@.len() ==> out@[k] == out0[k - 1]);
            assert forall|k1: int, k2: int| 0 <= k1 < k2 < out@.len() implies comes_before(
                #[trigger] out@[k1],
                #[trigger] out@[k2],
            ) by {
                if k1 == p {
                    assert(comes_before(x, out0[k2 - 1]));
                } else if k2 == p {
                    assert(comes_before(out0[k1], x));
                }
            }
        }
        idx += 1;
    }
    proof {
        assert(input@.subrange(0, input@.len() as int) =~= input@);
    }
    out
}

/// Normalizes each column to unit Euclidean norm, applies its weight, and
/// extracts the positive and negative ideal value per criterion. Reports
/// the first all-zero column instead of dividing by a zero norm.
#[verifier::loop_isolation(false)]
fn prepare_columns(m: &Vec<i64>, w: &Vec<u64>, d: &Vec<bool>, r: usize) -> (res: Result<
    (Vec<Vec<i64>>, Vec<i64>, Vec<i64>),
    TopsisError,
>)
    requires
        w@.len() == d@.len(),
        1 <= w@.len() <= DIM_LIMIT as int,
        1 <= r,
        m@.len() == w@.len() * r,
        m@.len() <= DIM_LIMIT as int,
        forall|i: int| 0 <= i < m@.len() ==> -VALUE_LIMIT <= #[trigger] m@[i] <= VALUE_LIMIT,
        forall|j: int| 0 <= j < w@.len() ==> #[trigger] w@[j] <= WEIGHT_LIMIT,
    ensures
        res is Err ==> res == Err::<(Vec<Vec<i64>>, Vec<i64>, Vec<i64>), TopsisError>(
            TopsisError::DegenerateColumn,
        ) && degenerate(ints(m@), r as int, w@.len() as int),
        res matches Ok(cols) ==> {
            &&& !degenerate(ints(m@), r as int, w@.len() as int)
            &&& cols.0@.len() == w@.len()
            &&& cols.1@.len() == w@.len()
            &&& cols.2@.len() == w@.len()
            &&& forall|j: int|
                0 <= j < w@.len() ==> ints((#[trigger] cols.0@[j])@) == weighted_cols(
                    ints(m@),
                    r as int,
                    weights_int(w@),
                )[j]
            &&& forall|j: int| 0 <= j < w@.len() ==> (#[trigger] cols.0@[j])@.len() == r
            &&& forall|j: int, i: int|
                #![trigger cols.0@[j]@[i]]
                0 <= j < w@.len() && 0 <= i < r ==> -WEIGHT_LIMIT <= cols.0@[j]@[i] <= WEIGHT_LIMIT
            &&& forall|j: int|
                0 <= j < w@.len() ==> (#[trigger] cols.1@[j]) as int == pos_ideal(
                    ints(cols.0@[j]@),
                    d@[j],
                )
            &&& forall|j: int|
                0 <= j < w@.len() ==> (#[trigger] cols.2@[j]) as int == neg_ideal(
                    ints(cols.0@[j]@),
                    d@[j],
                )
            &&& forall|j: int|
                0 <= j < w@.len() ==> -WEIGHT_LIMIT <= #[trigger] cols.1@[j] <= WEIGHT_LIMIT
            &&& forall|j: int|
                0 <= j < w@.len() ==> -WEIGHT_LIMIT <= #[trigger] cols.2@[j] <= WEIGHT_LIMIT
        },
{
    let c = w.len();
    let ghost mm = ints(m@);
    let ghost ww = weights_int(w@);
    let mut tcols: Vec<Vec<i64>> = Vec::new();
    let mut pis: Vec<i64> = Vec::new();
    let mut nis: Vec<i64> = Vec::new();
    let mut j: usize = 0;
    while j < c
        invariant
            j <= c,
            tcols@.len() == j,
            pis@.len() == j,
            nis@.len() == j,
            forall|jj: int| 0 <= jj < j ==> #[trigger] sum_sq(column(mm, r as int, jj)) > 0,
            forall|jj: int|
                0 <= jj < j ==> ints((#[trigger] tcols@[jj])@) == weighted(
                    column(mm, r as int, jj),
                    ww[jj],
                ),
            forall|jj: int| 0 <= jj < j ==> (#[trigger] tcols@[jj])@.len() == r,
            forall|jj: int, i: int|
                #![trigger tcols@[jj]@[i]]
                0 <= jj < j && 0 <= i < r ==> -WEIGHT_LIMIT <= tcols@[jj]@[i] <= WEIGHT_LIMIT,
            forall|jj: int|
                0 <= jj < j ==> (#[trigger] pis@[jj]) as int == pos_ideal(
                    ints(tcols@[jj]@),
                    d@[jj],
                ),
            forall|jj: int|
                0 <= jj < j ==> (#[trigger] nis@[jj]) as int == neg_ideal(
                    ints(tcols@[jj]@),
                    d@[jj],
                ),
            forall|jj: int| 0 <= jj < j ==> -WEIGHT_LIMIT <= #[trigger] pis@[jj] <= WEIGHT_LIMIT,
            forall|jj: int| 0 <= jj < j ==> -WEIGHT_LIMIT <= #[trigger] nis@[jj] <= WEIGHT_LIMIT,
        decreases c - j,
    {
        let ghost mcol = column(mm, r as int, j as int);
        proof {
            assert(j as int * r as int + r as int <= c as int * r as int) by (nonlinear_arith)
                requires j as int + 1 <= c as int && r as int >= 0
            ;
            assert(mcol.len() == r);
        }
        let base: usize = j * r;
        let mut acc: u128 = 0;
        let mut i: usize = 0;
        while i < r
            invariant
                i <= r,
                acc as int == sum_sq(mcol.take(i as int)),
                acc as int <= i as int * sq(VALUE_LIMIT as int),
            decreases r - i,
        {
            proof {
                assert(mcol.take(i as int + 1).drop_last() =~= mcol.take(i as int));
                assert(mcol.take(i as int + 1).last() == mcol[i as int]);
                assert(mcol[i as int] == mm[base + i]);
            }
            let x = m[base + i];
            let xi: i128 = x as i128;
            proof {
                assert(xi * xi == sq(x as int)) by (nonlinear_arith)
                    requires xi == x as int
                ;
                assert(0 <= sq(x as int) <= sq(VALUE_LIMIT as int)) by (nonlinear_arith)
                    requires -VALUE_LIMIT <= x as int <= VALUE_LIMIT
                ;
                assert((i as int + 1) * sq(VALUE_LIMIT as int) == i as int * sq(VALUE_LIMIT as int)
                    + sq(VALUE_LIMIT as int)) by (nonlinear_arith);
                assert(i as int * sq(VALUE_LIMIT as int) + sq(VALUE_LIMIT as int) <= 1_000_000
                    * sq(VALUE_LIMIT as int)) by (nonlinear_arith)
                    requires 0 <= i as int <= 999_999
                ;
                assert(1_000_000 * sq(VALUE_LIMIT as int)
                    < 0xFFFF_FFFF_FFFF_FFFF_FFFF_FFFF_FFFF_FFFF) by (nonlinear_arith);
            }
            acc = acc + ((xi * xi) as u128);
            i += 1;
        }
        proof {
            assert(mcol.take(r as int) =~= mcol);
        }
        let norm_u: u64 = isqrt_u128(acc);
        if norm_u == 0 {
            proof {
                lemma_sum_sq_nonneg(mcol);
                lemma_isqrt_zero(acc as int);
                assert(sum_sq(column(mm, r as int, j as int)) == 0);
            }
            return Err(TopsisError::DegenerateColumn);
        }
        proof {
            lemma_sum_sq_nonneg(mcol);
            lemma_isqrt_zero(acc as int);
            assert(norm_u as int == norm_of(mcol));
            assert(sum_sq(mcol) > 0);
        }
        let wj: u64 = w[j];
        let mut tcol: Vec<i64> = Vec::new();
        let mut i: usize = 0;
        while i < r
            invariant
                i <= r,
                tcol@.len() == i,
                forall|k: int|
                    0 <= k < i ==> (#[trigger] tcol@[k]) as int == tdiv(
                        mcol[k] * ww[j as int],
                        norm_of(mcol),
                    ),
                forall|k: int| 0 <= k < i ==> -WEIGHT_LIMIT <= #[trigger] tcol@[k] <= WEIGHT_LIMIT,
            decreases r - i,
        {
            proof {
                lemma_entry_le_norm(mcol, i as int);
                assert(mcol[i as int] == mm[base + i]);
            }
            let x = m[base + i];
            let t = scale_value(x, wj, norm_u);
            tcol.push(t);
            i += 1;
        }
        proof {
            assert(ints(tcol@) =~= weighted(mcol, ww[j as int]));
        }
        let mut mx: i64 = tcol[0];
        let mut mn: i64 = tcol[0];
        let mut i: usize = 1;
        let ghost tci = ints(tcol@);
        proof {
            assert(tci.take(1).len() == 1);
            assert(tci.take(1)[0] == tci[0]);
        }
        while i < r
            invariant
                1 <= i <= r,
                mx as int == seq_max(tci.take(i as int)),
                mn as int == seq_min(tci.take(i as int)),
            decreases r - i,
        {
            proof {
                assert(tci.take(i as int + 1).drop_last() =~= tci.take(i as int));
                assert(tci.take(i as int + 1).last() == tci[i as int]);
            }
            let v = tcol[i];
            if v > mx {
                mx = v;
            }
            if v < mn {
                mn = v;
            }
            i += 1;
        }
        proof {
            assert(tci.take(r as int) =~= tci);
            lemma_seq_max_props(tci);
            lemma_seq_min_props(tci);
        }
        let pv: i64;
        let nv: i64;
        if d[j] {
            pv = mx;
            nv = mn;
        } else {
            pv = mn;
            nv = mx;
        }
        tcols.push(tcol);
        pis.push(pv);
        nis.push(nv);
        j += 1;
    }
    proof {
        assert(!degenerate(mm, r as int, c as int));
        assert(forall|jj: int|
            0 <= jj < c ==> ints((#[trigger] tcols@[jj])@) == weighted_cols(mm, r as int, ww)[jj]);
    }
    Ok((tcols, pis, nis))
}

/// Computes, for every alternative, its Euclidean distances to the
/// positive and the negative ideal profile and the resulting relative
/// closeness, paired with the alternative's row index.
#[verifier::loop_isolation(false)]
fn score_rows(tcols: &Vec<Vec<i64>>, pis: &Vec<i64>, nis: &Vec<i64>, d: &Vec<bool>, r: usize) -> (res:
    Vec<Alternative>)
    requires
        1 <= tcols@.len() <= DIM_LIMIT as int,
        pis@.len() == tcols@.len(),
        nis@.len() == tcols@.len(),
        d@.len() == tcols@.len(),
        forall|j: int| 0 <= j < tcols@.len() ==> (#[trigger] tcols@[j])@.len() == r,
        forall|j: int, i: int|
            #![trigger tcols@[j]@[i]]
            0 <= j < tcols@.len() && 0 <= i < r ==> -WEIGHT_LIMIT <= tcols@[j]@[i] <= WEIGHT_LIMIT,
        forall|j: int|
            0 <= j < tcols@.len() ==> (#[trigger] pis@[j]) as int == pos_ideal(
                ints(tcols@[j]@),
                d@[j],
            ),
        forall|j: int|
            0 <= j < tcols@.len() ==> (#[trigger] nis@[j]) as int == neg_ideal(
                ints(tcols@[j]@),
                d@[j],
            ),
        forall|j: int| 0 <= j < tcols@.len() ==> -WEIGHT_LIMIT <= #[trigger] pis@[j] <= WEIGHT_LIMIT,
        forall|j: int| 0 <= j < tcols@.len() ==> -WEIGHT_LIMIT <= #[trigger] nis@[j] <= WEIGHT_LIMIT,
    ensures
        res@.len() == r,
        forall|k: int| 0 <= k < r ==> (#[trigger] res@[k]).id == k,
        forall|k: int|
            0 <= k < r ==> (#[trigger] res@[k]).value as int == closeness(
                isqrt(dist_sq_pos(cols_view(tcols@), d@, k)),
                isqrt(dist_sq_neg(cols_view(tcols@), d@, k)),
            ),
        forall|k: int| 0 <= k < r ==> (#[trigger] res@[k]).value <= SCALE,
{
    let c = tcols.len();
    let ghost tv = cols_view(tcols@);
    let mut res: Vec<Alternative> = Vec::new();
    let mut i: usize = 0;
    while i < r
        invariant
            i <= r,
            res@.len() == i,
            forall|k: int| 0 <= k < i ==> (#[trigger] res@[k]).id == k,
            forall|k: int|
                0 <= k < i ==> (#[trigger] res@[k]).value as int == closeness(
                    isqrt(dist_sq_pos(tv, d@, k)),
                    isqrt(dist_sq_neg(tv, d@, k)),
                ),
            forall|k: int| 0 <= k < i ==> (#[trigger] res@[k]).value <= SCALE,
        decreases r - i,
    {
        let mut sp: u128 = 0;
        let mut sn: u128 = 0;
        let mut jj: usize = 0;
        while jj < c
            invariant
                jj <= c,
                sp as int == dist_sq_pos(tv.take(jj as int), d@.take(jj as int), i as int),
                sn as int == dist_sq_neg(tv.take(jj as int), d@.take(jj as int), i as int),
                sp as int <= jj as int * sq(2 * WEIGHT_LIMIT as int),
                sn as int <= jj as int * sq(2 * WEIGHT_LIMIT as int),
            decreases c - jj,
        {
            let col = &tcols[jj];
            let t = col[i];
            let pv = pis[jj];
            let nv = nis[jj];
            let dp_c: i64 = t - pv;
            let dn_c: i64 = t - nv;
            proof {
                lemma_dist_sq_take_step(tv, d@, i as int, jj as int);
                assert(tv[jj as int] == ints(tcols@[jj as int]@));
                assert(tv[jj as int][i as int] == t as int);
                assert((dp_c as i128) * (dp_c as i128) == sq(dp_c as int) && (dn_c as i128) * (
                dn_c as i128) == sq(dn_c as int)) by (nonlinear_arith);
                assert(0 <= sq(dp_c as int) <= sq(2 * WEIGHT_LIMIT as int) && 0 <= sq(dn_c as int)
                    <= sq(2 * WEIGHT_LIMIT as int)) by (nonlinear_arith)
                    requires
                        -(2 * WEIGHT_LIMIT as int) <= dp_c as int <= 2 * WEIGHT_LIMIT as int,
                        -(2 * WEIGHT_LIMIT as int) <= dn_c as int <= 2 * WEIGHT_LIMIT as int,
                ;
                assert((jj as int + 1) * sq(2 * WEIGHT_LIMIT as int) == jj as int * sq(2
                    * WEIGHT_LIMIT as int) + sq(2 * WEIGHT_LIMIT as int)) by (nonlinear_arith);
                assert(jj as int * sq(2 * WEIGHT_LIMIT as int) + sq(2 * WEIGHT_LIMIT as int)
                    <= 1_000_000 * sq(2 * WEIGHT_LIMIT as int)) by (nonlinear_arith)
                    requires 0 <= jj as int <= 999_999
                ;
                assert(1_000_000 * sq(2 * WEIGHT_LIMIT as int)
                    < 0xFFFF_FFFF_FFFF_FFFF_FFFF_FFFF_FFFF_FFFF) by (nonlinear_arith);
            }
            sp = sp + (((dp_c as i128) * (dp_c as i128)) as u128);
            sn = sn + (((dn_c as i128) * (dn_c as i128)) as u128);
            jj += 1;
        }
        proof {
            assert(tv.take(c as int) =~= tv);
            assert(d@.take(c as int) =~= d@);
            assert(c as int * sq(2 * WEIGHT_LIMIT as int) <= 1_000_000 * sq(
                2 * WEIGHT_LIMIT as int,
            )) by (nonlinear_arith)
                requires 0 <= c as int <= 1_000_000
            ;
        }
        let dp = isqrt_u128(sp);
        let dn = isqrt_u128(sn);
        proof {
            assert(dp as int <= 0x7FFF_FFFF_FFFF_FFFF && dn as int <= 0x7FFF_FFFF_FFFF_FFFF) by (
            nonlinear_arith)
                requires
                    0 <= dp as int,
                    0 <= dn as int,
                    sq(dp as int) <= sp as int,
                    sq(dn as int) <= sn as int,
                    sp as int <= 1_000_000 * sq(2 * WEIGHT_LIMIT as int),
                    sn as int <= 1_000_000 * sq(2 * WEIGHT_LIMIT as int),
            ;
        }
        let v = closeness_exec(dp, dn);
        res.push(Alternative { value: v, id: i });
        i += 1;
    }
    res
}

/// Some entry of the ranking carries row index `i`.
pub open spec fn has_id(s: Seq<Alternative>, i: int) -> bool {
    exists|k: int| 0 <= k < s.len() && (#[trigger] s[k]).id == i
}

/// The number of alternatives described by a flat matrix of length `fl`
/// over `c` criteria.
pub open spec fn rows_of(fl: int, c: int) -> int {
    fl / c
}

/// Executes the whole TOPSIS calculation.
///
/// `criteria_weights` holds one non-negative fixed-point weight per
/// criterion, `criteria_types` holds `true` for a benefit criterion and
/// `false` for a cost criterion, and `alternatives` holds the matrix in
/// column-major order: all values of the first criterion, then all values
/// of the second, and so on. All numbers are fixed-point, in units of
/// `1 / SCALE`.
///
/// On success the ranking holds every row index exactly once, each paired
/// with its relative closeness, sorted by descending closeness with exact
/// ties in ascending row order. Malformed shapes and all-zero columns are
/// rejected before any computation, exactly as the error cases state.
#[verifier::loop_isolation(false)]
pub fn calculate(
    criteria_weights: &Vec<u64>,
    criteria_types: &Vec<bool>,
    alternatives: &Vec<i64>,
) -> (result: Result<Vec<Alternative>, TopsisError>)
    requires
        criteria_weights@.len() <= DIM_LIMIT as int,
        alternatives@.len() <= DIM_LIMIT as int,
        forall|j: int|
            0 <= j < criteria_weights@.len() ==> #[trigger] criteria_weights@[j] <= WEIGHT_LIMIT,
        forall|i: int|
            0 <= i < alternatives@.len() ==> -VALUE_LIMIT <= #[trigger] alternatives@[i]
                <= VALUE_LIMIT,
    ensures
        result == Err::<Vec<Alternative>, TopsisError>(TopsisError::ShapeMismatch)
            <==> criteria_weights@.len() != criteria_types@.len(),
        result == Err::<Vec<Alternative>, TopsisError>(TopsisError::InvalidShape)
            <==> (criteria_weights@.len() == criteria_types@.len() && !shape_ok(
            criteria_weights@.len() as int,
            criteria_types@.len() as int,
            alternatives@.len() as int,
        )),
        result == Err::<Vec<Alternative>, TopsisError>(TopsisError::DegenerateColumn)
            <==> (shape_ok(
            criteria_weights@.len() as int,
            criteria_types@.len() as int,
            alternatives@.len() as int,
        ) && degenerate(
            ints(alternatives@),
            rows_of(alternatives@.len() as int, criteria_weights@.len() as int),
            criteria_weights@.len() as int,
        )),
        result is Ok <==> (shape_ok(
            criteria_weights@.len() as int,
            criteria_types@.len() as int,
            alternatives@.len() as int,
        ) && !degenerate(
            ints(alternatives@),
            rows_of(alternatives@.len() as int, criteria_weights@.len() as int),
            criteria_weights@.len() as int,
        )),
        result matches Ok(res) ==> {
            let mm = ints(alternatives@);
            let ww = weights_int(criteria_weights@);
            let dd = criteria_types@;
            let r = rows_of(alternatives@.len() as int, criteria_weights@.len() as int);
            &&& res@.len() == r
            &&& forall|k: int| 0 <= k < res@.len() ==> 0 <= (#[trigger] res@[k]).id < r
            &&& forall|k: int|
                0 <= k < res@.len() ==> (#[trigger] res@[k]).value as int == score_of(
                    mm,
                    ww,
                    dd,
                    r,
                    res@[k].id as int,
                )
            &&& forall|k: int| 0 <= k < res@.len() ==> (#[trigger] res@[k]).value <= SCALE
            &&& forall|k1: int, k2: int|
                0 <= k1 < k2 < res@.len() ==> (#[trigger] res@[k1]).id != (#[trigger] res@[k2]).id
            &&& forall|i: int| 0 <= i < r ==> #[trigger] has_id(res@, i)
            &&& ranked(res@)
            &&& forall|k1: int, k2: int|
                0 <= k1 < k2 < res@.len() ==> (#[trigger] res@[k1]).value >= (
                #[trigger] res@[k2]).value
        },
{
    let c = criteria_weights.len();
    if c != criteria_types.len() {
        return Err(TopsisError::ShapeMismatch);
    }
    let fl = alternatives.len();
    if c == 0 || fl == 0 || fl % c != 0 {
        return Err(TopsisError::InvalidShape);
    }
    let r = fl / c;
    proof {
        lemma_fundamental_div_mod(fl as int, c as int);
        assert(fl as int == c as int * r as int);
        assert(r >= 1) by (nonlinear_arith)
            requires fl as int == c as int * r as int && fl > 0 && r as int >= 0
        ;
        assert(alternatives@.len() == criteria_weights@.len() * r as int);
    }
    match prepare_columns(alternatives, criteria_weights, criteria_types, r) {
        Err(e) => Err(e),
        Ok((tcols, pis, nis)) => {
            let ghost mm = ints(alternatives@);
            let ghost ww = weights_int(criteria_weights@);
            let ghost dd = criteria_types@;
            let scored = score_rows(&tcols, &pis, &nis, criteria_types, r);
            proof {
                assert(cols_view(tcols@) =~= weighted_cols(mm, r as int, ww));
            }
            let ghost s0 = scored@;
            let out = rank_sort(scored);
            proof {
                broadcast use group_to_multiset_ensures;

                assert(forall|i: int|
                    0 <= i < r ==> (#[trigger] s0[i]).value as int == score_of(
                        mm,
                        ww,
                        dd,
                        r as int,
                        i,
                    ));
                assert(s0.no_duplicates());
                s0.lemma_multiset_has_no_duplicates();
                assert forall|i: int| 0 <= i < r implies #[trigger] has_id(out@, i) by {
                    assert(s0[i].id == i);
                    assert(s0.contains(s0[i]));
                    assert(out@.to_multiset().count(s0[i]) > 0);
                    assert(out@.contains(s0[i]));
                    let k = choose|k: int| 0 <= k < out@.len() && #[trigger] out@[k] == s0[i];
                    assert(out@[k].id == i);
                }
                assert forall|k: int| 0 <= k < out@.len() implies {
                    &&& 0 <= (#[trigger] out@[k]).id < r
                    &&& out@[k].value as int == score_of(mm, ww, dd, r as int, out@[k].id as int)
                    &&& out@[k].value <= SCALE
                } by {
                    assert(out@.contains(out@[k]));
                    assert(out@.to_multiset().count(out@[k]) > 0);
                    assert(s0.to_multiset().count(out@[k]) > 0);
                    assert(s0.contains(out@[k]));
                    let idx = choose|idx: int|
                        0 <= idx < s0.len() && #[trigger] s0[idx] == out@[k];
                    assert(s0[idx].id == idx);
                }
                assert forall|x: Alternative| out@.to_multiset().contains(x) implies out@
                    .to_multiset().count(x) == 1 by {
                    assert(s0.to_multiset().count(x) > 0);
                    assert(s0.to_multiset().contains(x));
                }
                out@.lemma_multiset_has_no_duplicates_conv();
                assert forall|k1: int, k2: int| 0 <= k1 < k2 < out@.len() implies (
                #[trigger] out@[k1]).id != (#[trigger] out@[k2]).id by {
                    if out@[k1].id == out@[k2].id {
                        assert(out@[k1].value == out@[k2].value);
                        assert(out@[k1] == out@[k2]);
                        assert(false);
                    }
                }
            }
            Ok(out)
        },
    }
}

} // verus!
