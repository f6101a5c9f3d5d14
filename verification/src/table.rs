//! Table shape and indexing: the Cartesian product of the parameter ranges
//! laid out densely in row-major order, with the first declared parameter
//! as the outermost, slowest-varying dimension.

use vstd::prelude::*;
use vstd::arithmetic::mul::*;

use crate::param::{Param, ParamModel, index_in_range, param_count, param_valid};

verus! {

/// The models of a sequence of parameters, in declared order.
pub open spec fn views_of(ps: Seq<Param>) -> Seq<ParamModel> {
    Seq::new(ps.len(), |k: int| ps[k]@)
}

/// Every parameter of the sequence is valid.
pub open spec fn params_valid(ps: Seq<ParamModel>) -> bool {
    forall|k: int| 0 <= k < ps.len() ==> param_valid(#[trigger] ps[k])
}

/// Total number of table cells: the product of all dimension counts.
/// An empty parameter list yields the degenerate one-cell table that holds
/// the body's single precomputed value.
pub open spec fn table_size(ps: Seq<ParamModel>) -> int
    decreases ps.len(),
{
    if ps.len() == 0 {
        1
    } else {
        param_count(ps[0]) * table_size(ps.drop_first())
    }
}

/// One run-time index per parameter, each below its dimension's count.
pub open spec fn indices_in_range(ps: Seq<ParamModel>, idx: Seq<usize>) -> bool {
    &&& idx.len() == ps.len()
    &&& forall|k: int| 0 <= k < ps.len() ==> index_in_range(ps[k], #[trigger] idx[k] as int)
}

/// The parameter values addressed by an index tuple: the k-th value is
/// `lo_k + idx_k`.
pub open spec fn values_of(ps: Seq<ParamModel>, idx: Seq<usize>) -> Seq<usize> {
    Seq::new(ps.len(), |k: int| (ps[k].lo + idx[k]) as usize)
}

/// Row-major position of an index tuple in the flattened table, taking the
/// first parameter as the outermost dimension.
pub open spec fn flat_index(ps: Seq<ParamModel>, idx: Seq<usize>) -> int
    decreases ps.len(),
{
    if ps.len() == 0 {
        0
    } else {
        flat_index(ps.drop_last(), idx.drop_last()) * param_count(ps.last()) + idx.last()
    }
}

/// A valid parameter sequence has a positive table size.
pub proof fn lemma_table_size_pos(ps: Seq<ParamModel>)
    requires
        params_valid(ps),
    ensures
        table_size(ps) >= 1,
    decreases ps.len(),
{
    if ps.len() > 0 {
        assert(params_valid(ps.drop_first()));
        lemma_table_size_pos(ps.drop_first());
        lemma_mul_strictly_positive(param_count(ps[0]), table_size(ps.drop_first()));
    }
}

/// The table size splits across concatenation of parameter sequences.
pub proof fn lemma_table_size_add(a: Seq<ParamModel>, b: Seq<ParamModel>)
    ensures
        table_size(a + b) == table_size(a) * table_size(b),
    decreases a.len(),
{
    if a.len() == 0 {
        assert(a + b =~= b);
    } else {
        assert((a + b).drop_first() =~= a.drop_first() + b);
        lemma_table_size_add(a.drop_first(), b);
        lemma_mul_is_associative(
            param_count(a[0]),
            table_size(a.drop_first()),
            table_size(b),
        );
    }
}

/// The table size also peels off its last dimension.
pub proof fn lemma_table_size_drop_last(ps: Seq<ParamModel>)
    requires
        ps.len() >= 1,
    ensures
        table_size(ps) == table_size(ps.drop_last()) * param_count(ps.last()),
{
    let single = seq![ps.last()];
    assert(ps =~= ps.drop_last() + single);
    lemma_table_size_add(ps.drop_last(), single);
    assert(single.len() == 1);
    assert(single[0] == ps.last());
    assert(single.drop_first() =~= Seq::<ParamModel>::empty());
    assert(table_size(single.drop_first()) == 1);
    assert(table_size(single) == param_count(ps.last()));
    lemma_mul_is_commutative(table_size(ps.drop_last()), param_count(ps.last()));
}

/// A row-major flat index of an in-range tuple lies inside the table.
pub proof fn lemma_flat_index_bounds(ps: Seq<ParamModel>, idx: Seq<usize>)
    requires
        params_valid(ps),
        indices_in_range(ps, idx),
    ensures
        0 <= flat_index(ps, idx) < table_size(ps),
    decreases ps.len(),
{
    if ps.len() == 0 {
    } else {
        let psd = ps.drop_last();
        let idxd = idx.drop_last();
        assert(params_valid(psd));
        assert(indices_in_range(psd, idxd));
        lemma_flat_index_bounds(psd, idxd);
        lemma_table_size_drop_last(ps);
        let f = flat_index(psd, idxd);
        let c = param_count(ps.last());
        let s = table_size(psd);
        assert(idx.last() as int == idx[ps.len() - 1] as int);
        assert(index_in_range(ps.last(), idx.last() as int));
        assert(f * c + idx.last() < s * c) by (nonlinear_arith)
            requires
                0 <= f < s,
                0 <= (idx.last() as int) < c,
        ;
        assert(f * c + idx.last() >= 0) by (nonlinear_arith)
            requires
                f >= 0,
                c >= 1,
                idx.last() as int >= 0,
        ;
    }
}

/// Extending a prefix by one parameter multiplies its size by that
/// parameter's count.
pub proof fn lemma_table_size_take_step(ps: Seq<ParamModel>, k: int)
    requires
        0 <= k < ps.len(),
    ensures
        table_size(ps.take(k + 1)) == table_size(ps.take(k)) * param_count(ps[k]),
{
    assert(ps.take(k + 1).drop_last() =~= ps.take(k));
    assert(ps.take(k + 1).last() == ps[k]);
    lemma_table_size_drop_last(ps.take(k + 1));
}

/// A prefix of the parameter list never describes a larger table than the
/// whole list does.
pub proof fn lemma_table_size_take_le(ps: Seq<ParamModel>, k: int)
    requires
        params_valid(ps),
        0 <= k <= ps.len(),
    ensures
        1 <= table_size(ps.take(k)) <= table_size(ps),
{
    let a = ps.take(k);
    let b = ps.skip(k);
    assert(ps =~= a + b);
    lemma_table_size_add(a, b);
    assert(params_valid(a));
    assert(params_valid(b));
    lemma_table_size_pos(a);
    lemma_table_size_pos(b);
    assert(table_size(a) <= table_size(a) * table_size(b)) by (nonlinear_arith)
        requires
            table_size(a) >= 1,
            table_size(b) >= 1,
    ;
}

/// Each single dimension's count is bounded by the whole table's size.
pub proof fn lemma_param_count_le_table_size(ps: Seq<ParamModel>, k: int)
    requires
        params_valid(ps),
        0 <= k < ps.len(),
    ensures
        1 <= param_count(ps[k]) <= table_size(ps),
{
    let a = ps.take(k);
    let b = ps.skip(k);
    assert(ps =~= a + b);
    lemma_table_size_add(a, b);
    assert(params_valid(a));
    assert(params_valid(b));
    lemma_table_size_pos(a);
    assert(b[0] == ps[k]);
    assert(params_valid(b.drop_first()));
    lemma_table_size_pos(b.drop_first());
    assert(table_size(b) == param_count(ps[k]) * table_size(b.drop_first()));
    assert(param_count(ps[k]) <= table_size(a) * (param_count(ps[k]) * table_size(
        b.drop_first(),
    ))) by (nonlinear_arith)
        requires
            table_size(a) >= 1,
            table_size(b.drop_first()) >= 1,
            param_count(ps[k]) >= 1,
    ;
}

/// Peeling off the first (outermost) dimension: its index selects a block
/// of `table_size` of the remaining dimensions, and the rest of the tuple
/// addresses a cell inside that block.
pub proof fn lemma_flat_index_drop_first(ps: Seq<ParamModel>, idx: Seq<usize>)
    requires
        ps.len() >= 1,
        idx.len() == ps.len(),
    ensures
        flat_index(ps, idx) == idx[0] * table_size(ps.drop_first()) + flat_index(
            ps.drop_first(),
            idx.drop_first(),
        ),
    decreases ps.len(),
{
    if ps.len() == 1 {
        assert(ps.drop_last() =~= Seq::<ParamModel>::empty());
        assert(ps.drop_first() =~= Seq::<ParamModel>::empty());
        assert(flat_index(ps.drop_last(), idx.drop_last()) == 0);
        assert(flat_index(ps, idx) == 0 * param_count(ps.last()) + idx.last());
        assert(idx.last() == idx[0]);
        assert(flat_index(ps.drop_first(), idx.drop_first()) == 0);
        assert(idx[0] * table_size(ps.drop_first()) == idx[0] * 1);
    } else {
        let psd = ps.drop_last();
        let idxd = idx.drop_last();
        lemma_flat_index_drop_first(psd, idxd);
        assert(psd.drop_first() =~= ps.drop_first().drop_last());
        assert(idxd.drop_first() =~= idx.drop_first().drop_last());
        assert(psd[0] == ps[0]);
        assert(idxd[0] == idx[0]);
        let a = idx[0] as int;
        let s = table_size(ps.drop_first().drop_last());
        let f = flat_index(ps.drop_first().drop_last(), idx.drop_first().drop_last());
        let c = param_count(ps.last());
        assert(ps.drop_first().last() == ps.last());
        assert(idx.drop_first().last() == idx.last());
        lemma_table_size_drop_last(ps.drop_first());
        assert((a * s + f) * c == a * (s * c) + f * c) by (nonlinear_arith);
        assert(flat_index(psd, idxd) == a * s + f);
        assert(flat_index(ps, idx) == (a * s + f) * c + idx.last());
        assert(table_size(ps.drop_first()) == s * c);
        assert(flat_index(ps.drop_first(), idx.drop_first()) == f * c + idx.last());
        assert(flat_index(ps, idx) == a * table_size(ps.drop_first()) + flat_index(
            ps.drop_first(),
            idx.drop_first(),
        ));
    }
}

/// A tuple of parameter values, one per parameter: the k-th value lies in
/// the k-th declared range.
pub open spec fn values_in_range(ps: Seq<ParamModel>, vals: Seq<usize>) -> bool {
    &&& vals.len() == ps.len()
    &&& forall|k: int|
        0 <= k < ps.len() ==> ps[k].lo <= #[trigger] vals[k] < ps[k].lo + param_count(ps[k])
}

/// Total cell count of the table the parameters describe, or `None` when
/// that product does not fit the machine's index type (a build-resource
/// failure, surfaced rather than truncated).
pub fn checked_size(params: &Vec<Param>) -> (r: Option<usize>)
    requires
        params_valid(views_of(params@)),
    ensures
        match r {
            Some(n) => n == table_size(views_of(params@)),
            None => table_size(views_of(params@)) > usize::MAX,
        },
{
    let ghost vs = views_of(params@);
    let mut acc: usize = 1;
    let mut k: usize = 0;
    proof {
        assert(vs.take(0) =~= Seq::<ParamModel>::empty());
    }
    while k < params.len()
        invariant
            params_valid(vs),
            vs == views_of(params@),
            vs.len() == params@.len(),
            0 <= k <= params@.len(),
            acc == table_size(vs.take(k as int)),
        decreases params@.len() - k,
    {
        let p = &params[k];
        proof {
            assert(vs[k as int] == params@[k as int]@);
            lemma_table_size_take_step(vs, k as int);
            lemma_table_size_take_le(vs, k as int);
        }
        let width = p.hi - p.lo;
        let cnt: u128 = if p.exclusive_end {
            width as u128
        } else {
            width as u128 + 1
        };
        assert(cnt == param_count(vs[k as int]));
        assert(acc * cnt <= usize::MAX * (usize::MAX + 1)) by (nonlinear_arith)
            requires
                0 <= acc <= usize::MAX,
                0 <= cnt <= usize::MAX + 1,
        ;
        let next: u128 = acc as u128 * cnt;
        if next > usize::MAX as u128 {
            proof {
                lemma_table_size_take_le(vs, k as int + 1);
            }
            return None;
        }
        acc = next as usize;
        k = k + 1;
    }
    proof {
        assert(vs.take(params@.len() as int) =~= vs);
    }
    Some(acc)
}

/// Row-major flat position of an index tuple, computed in declared
/// parameter order: the first parameter indexes the outermost dimension.
pub fn flat_index_of(params: &Vec<Param>, idx: &Vec<usize>) -> (r: usize)
    requires
        params_valid(views_of(params@)),
        indices_in_range(views_of(params@), idx@),
        table_size(views_of(params@)) <= usize::MAX,
    ensures
        r == flat_index(views_of(params@), idx@),
{
    let ghost vs = views_of(params@);
    let mut acc: usize = 0;
    let mut k: usize = 0;
    proof {
        assert(vs.take(0) =~= Seq::<ParamModel>::empty());
        assert(idx@.take(0) =~= Seq::<usize>::empty());
    }
    while k < params.len()
        invariant
            params_valid(vs),
            vs == views_of(params@),
            indices_in_range(vs, idx@),
            table_size(vs) <= usize::MAX,
            vs.len() == params@.len(),
            idx@.len() == params@.len(),
            0 <= k <= params@.len(),
            acc == flat_index(vs.take(k as int), idx@.take(k as int)),
        decreases params@.len() - k,
    {
        let ghost pre_ps = vs.take(k as int);
        let ghost pre_ix = idx@.take(k as int);
        let ghost cur_ps = vs.take(k as int + 1);
        let ghost cur_ix = idx@.take(k as int + 1);
        proof {
            assert(vs[k as int] == params@[k as int]@);
            lemma_param_count_le_table_size(vs, k as int);
            assert(cur_ps.drop_last() =~= pre_ps);
            assert(cur_ix.drop_last() =~= pre_ix);
            assert(cur_ps.last() == vs[k as int]);
            assert(cur_ix.last() == idx@[k as int]);
            assert(params_valid(cur_ps));
            assert(indices_in_range(cur_ps, cur_ix));
            lemma_flat_index_bounds(cur_ps, cur_ix);
            lemma_table_size_take_le(vs, k as int + 1);
            assert(flat_index(cur_ps, cur_ix) == acc * param_count(vs[k as int])
                + idx@[k as int]);
        }
        let c = params[k].count();
        let i = idx[k];
        acc = acc * c + i;
        k = k + 1;
    }
    proof {
        assert(vs.take(params@.len() as int) =~= vs);
        assert(idx@.take(params@.len() as int) =~= idx@);
    }
    acc
}

/// A fresh tuple holding `head` followed by the elements of `tail`.
fn cons_tuple(head: usize, tail: &Vec<usize>) -> (r: Vec<usize>)
    ensures
        r@ == seq![head] + tail@,
{
    let mut r: Vec<usize> = Vec::new();
    r.push(head);
    let mut m: usize = 0;
    while m < tail.len()
        invariant
            0 <= m <= tail@.len(),
            r@ == seq![head] + tail@.take(m as int),
        decreases tail@.len() - m,
    {
        r.push(tail[m]);
        proof {
            assert(seq![head] + tail@.take(m as int + 1) =~= (seq![head] + tail@.take(
                m as int,
            )).push(tail@[m as int]));
        }
        m = m + 1;
    }
    proof {
        assert(tail@.take(tail@.len() as int) =~= tail@);
    }
    r
}

/// Value tuples for the parameter suffix starting at `depth`, in row-major
/// order: the tuple for index tuple `idx` stands at position
/// `flat_index(suffix, idx)`.
fn tuples_from(params: &Vec<Param>, depth: usize) -> (r: Vec<Vec<usize>>)
    requires
        params_valid(views_of(params@)),
        depth <= params@.len(),
        table_size(views_of(params@).skip(depth as int)) <= usize::MAX,
    ensures
        ({
            let suffix = views_of(params@).skip(depth as int);
            &&& r@.len() == table_size(suffix)
            &&& forall|j: int| 0 <= j < r@.len() ==> values_in_range(suffix, #[trigger] r@[j]@)
            &&& forall|idx: Seq<usize>|
                indices_in_range(suffix, idx) ==> #[trigger] r@[flat_index(suffix, idx)]@
                    == values_of(suffix, idx)
        }),
    decreases params@.len() - depth,
{
    let ghost vs = views_of(params@);
    let ghost suffix = vs.skip(depth as int);
    if depth == params.len() {
        let mut r: Vec<Vec<usize>> = Vec::new();
        r.push(Vec::new());
        proof {
            assert(suffix =~= Seq::<ParamModel>::empty());
            assert forall|idx: Seq<usize>| indices_in_range(suffix, idx) implies #[trigger] r@[
                flat_index(suffix, idx)
            ]@ == values_of(suffix, idx) by {
                assert(idx.len() == 0);
                assert(flat_index(suffix, idx) == 0);
                assert(values_of(suffix, idx) =~= Seq::<usize>::empty());
                assert(r@[0]@ =~= Seq::<usize>::empty());
            }
            assert forall|j: int| 0 <= j < r@.len() implies values_in_range(
                suffix,
                #[trigger] r@[j]@,
            ) by {
                assert(r@[0]@ =~= Seq::<usize>::empty());
            }
        }
        return r;
    }
    let ghost rest_suffix = vs.skip(depth as int + 1);
    proof {
        assert(suffix.drop_first() =~= rest_suffix);
        assert(suffix[0] == vs[depth as int]);
        assert(params_valid(suffix));
        assert(params_valid(rest_suffix));
        lemma_table_size_pos(rest_suffix);
        assert(table_size(suffix) == param_count(suffix[0]) * table_size(rest_suffix));
        assert(table_size(rest_suffix) <= param_count(suffix[0]) * table_size(rest_suffix))
            by (nonlinear_arith)
            requires
                param_count(suffix[0]) >= 1,
                table_size(rest_suffix) >= 1,
        ;
        lemma_param_count_le_table_size(suffix, 0);
    }
    let rest = tuples_from(params, depth + 1);
    let ghost rlen = rest@.len() as int;
    let p_lo = params[depth].lo;
    let c = params[depth].count();
    let mut out: Vec<Vec<usize>> = Vec::new();
    let mut i: usize = 0;
    while i < c
        invariant
            params_valid(vs),
            vs == views_of(params@),
            depth < params@.len(),
            suffix == vs.skip(depth as int),
            suffix.len() >= 1,
            rest_suffix == vs.skip(depth as int + 1),
            params_valid(suffix),
            params_valid(rest_suffix),
            suffix.drop_first() == rest_suffix,
            suffix[0] == vs[depth as int],
            p_lo == suffix[0].lo,
            c == param_count(suffix[0]),
            rlen == rest@.len(),
            rlen == table_size(rest_suffix),
            forall|j: int| 0 <= j < rlen ==> values_in_range(rest_suffix, #[trigger] rest@[j]@),
            forall|idx: Seq<usize>|
                indices_in_range(rest_suffix, idx) ==> #[trigger] rest@[
                    flat_index(rest_suffix, idx)
                ]@ == values_of(rest_suffix, idx),
            0 <= i <= c,
            out@.len() == i * rlen,
            forall|j: int| 0 <= j < out@.len() ==> values_in_range(suffix, #[trigger] out@[j]@),
            forall|idx: Seq<usize>|
                indices_in_range(suffix, idx) && idx[0] < i ==> #[trigger] out@[
                    flat_index(suffix, idx)
                ]@ == values_of(suffix, idx),
        decreases c - i,
    {
        let mut j: usize = 0;
        proof {
            assert(i * rlen + rlen == (i + 1) * rlen) by (nonlinear_arith);
            assert(i * rlen <= (c - 1) * rlen) by (nonlinear_arith)
                requires
                    0 <= i <= c - 1,
                    rlen >= 0,
            ;
        }
        while j < rest.len()
            invariant
                params_valid(vs),
                vs == views_of(params@),
                depth < params@.len(),
                suffix == vs.skip(depth as int),
                suffix.len() >= 1,
                params_valid(suffix),
                params_valid(rest_suffix),
                suffix.drop_first() == rest_suffix,
                suffix[0] == vs[depth as int],
                p_lo == suffix[0].lo,
                c == param_count(suffix[0]),
                rlen == rest@.len(),
                rlen == table_size(rest_suffix),
                forall|jj: int|
                    0 <= jj < rlen ==> values_in_range(rest_suffix, #[trigger] rest@[jj]@),
                forall|idx: Seq<usize>|
                    indices_in_range(rest_suffix, idx) ==> #[trigger] rest@[
                        flat_index(rest_suffix, idx)
                    ]@ == values_of(rest_suffix, idx),
                0 <= i < c,
                0 <= j <= rlen,
                out@.len() == i * rlen + j,
                forall|jj: int|
                    0 <= jj < out@.len() ==> values_in_range(suffix, #[trigger] out@[jj]@),
                forall|idx: Seq<usize>|
                    indices_in_range(suffix, idx) && (idx[0] < i || (idx[0] == i && 0
                        <= flat_index(rest_suffix, idx.drop_first()) < j)) ==> #[trigger] out@[
                        flat_index(suffix, idx)
                    ]@ == values_of(suffix, idx),
            decreases rlen - j,
        {
            proof {
                assert(param_valid(suffix[0]));
                assert(p_lo + i < suffix[0].lo + param_count(suffix[0]));
            }
            let val = p_lo + i;
            let t = cons_tuple(val, &rest[j]);
            out.push(t);
            proof {
                let ghost newpos = i * rlen + j;
                assert(out@.len() == newpos + 1);
                assert(values_in_range(rest_suffix, rest@[j as int]@));
                assert(values_in_range(suffix, t@)) by {
                    assert(t@.len() == 1 + rest@[j as int]@.len());
                    assert(rest@[j as int]@.len() == rest_suffix.len());
                    assert forall|k: int| 0 <= k < suffix.len() implies suffix[k].lo
                        <= #[trigger] t@[k] < suffix[k].lo + param_count(suffix[k]) by {
                        if k == 0 {
                            assert(t@[0] == val);
                        } else {
                            assert(t@[k] == rest@[j as int]@[k - 1]);
                            assert(rest_suffix[k - 1] == suffix[k]);
                        }
                    }
                }
                assert forall|idx: Seq<usize>|
                    indices_in_range(suffix, idx) && (idx[0] < i || (idx[0] == i && 0
                        <= flat_index(rest_suffix, idx.drop_first()) < j + 1)) implies #[trigger] out@[
                    flat_index(suffix, idx)
                ]@ == values_of(suffix, idx) by {
                    lemma_flat_index_drop_first(suffix, idx);
                    assert(indices_in_range(rest_suffix, idx.drop_first()));
                    let fi = flat_index(rest_suffix, idx.drop_first());
                    lemma_flat_index_bounds(rest_suffix, idx.drop_first());
                    assert(flat_index(suffix, idx) == idx[0] * rlen + fi);
                    if idx[0] < i || fi < j {
                        assert(flat_index(suffix, idx) < i * rlen + j) by {
                            if idx[0] < i {
                                assert(idx[0] * rlen + fi < i * rlen + j) by (nonlinear_arith)
                                    requires
                                        idx[0] < i,
                                        0 <= fi < rlen,
                                        0 <= j,
                                ;
                            }
                        }
                        assert(out@[flat_index(suffix, idx)]@ == values_of(suffix, idx));
                    } else {
                        assert(idx[0] == i && fi == j);
                        assert(flat_index(suffix, idx) == newpos);
                        assert(rest@[fi]@ == values_of(rest_suffix, idx.drop_first()));
                        assert(values_of(suffix, idx) =~= seq![val] + values_of(
                            rest_suffix,
                            idx.drop_first(),
                        ));
                        assert(out@[newpos]@ == t@);
                    }
                }
            }
            j = j + 1;
        }
        i = i + 1;
        proof {
            assert((i - 1) * rlen + rlen == i * rlen) by (nonlinear_arith);
            assert forall|idx: Seq<usize>|
                indices_in_range(suffix, idx) && idx[0] < i implies #[trigger] out@[
                flat_index(suffix, idx)
            ]@ == values_of(suffix, idx) by {
                assert(indices_in_range(rest_suffix, idx.drop_first()));
                lemma_flat_index_bounds(rest_suffix, idx.drop_first());
            }
        }
    }
    proof {
        assert(out@.len() == c * rlen);
        assert(table_size(suffix) == c * rlen);
        assert forall|idx: Seq<usize>| indices_in_range(suffix, idx) implies #[trigger] out@[
            flat_index(suffix, idx)
        ]@ == values_of(suffix, idx) by {
            assert(index_in_range(suffix[0], idx[0] as int));
            assert(idx[0] < c);
            lemma_flat_index_bounds(suffix, idx);
        }
    }
    out
}

/// Every combination of parameter values, enumerated in row-major order:
/// the combination addressed by index tuple `idx` stands at position
/// `flat_index` of `idx`, with the first declared parameter varying
/// slowest.
pub fn enumerate_values(params: &Vec<Param>) -> (r: Vec<Vec<usize>>)
    requires
        params_valid(views_of(params@)),
        table_size(views_of(params@)) <= usize::MAX,
    ensures
        r@.len() == table_size(views_of(params@)),
        forall|j: int|
            0 <= j < r@.len() ==> values_in_range(views_of(params@), #[trigger] r@[j]@),
        forall|idx: Seq<usize>|
            indices_in_range(views_of(params@), idx) ==> #[trigger] r@[
                flat_index(views_of(params@), idx)
            ]@ == values_of(views_of(params@), idx),
{
    proof {
        assert(views_of(params@).skip(0) =~= views_of(params@));
    }
    tuples_from(params, 0)
}

/// A fresh copy of a value tuple.
fn clone_tuple(v: &Vec<usize>) -> (r: Vec<usize>)
    ensures
        r@ == v@,
{
    let mut r: Vec<usize> = Vec::new();
    let mut m: usize = 0;
    while m < v.len()
        invariant
            0 <= m <= v@.len(),
            r@ == v@.take(m as int),
        decreases v@.len() - m,
    {
        r.push(v[m]);
        proof {
            assert(v@.take(m as int + 1) =~= v@.take(m as int).push(v@[m as int]));
        }
        m = m + 1;
    }
    proof {
        assert(v@.take(v@.len() as int) =~= v@);
    }
    r
}

/// The body may return `out` for the value tuple `tup`: some argument
/// vector holding exactly `tup` has `out` among its possible results.
pub open spec fn may_produce<T, F: Fn(Vec<usize>) -> T>(body: F, tup: Seq<usize>, out: T) -> bool {
    exists|vals: Vec<usize>| vals@ == tup && call_ensures(body, (vals,), out)
}

/// Fill the table: enumerate the full Cartesian product of the parameter
/// ranges in row-major order and evaluate the body once per combination.
/// The cell for index tuple `idx` holds a result the body may return for
/// the value tuple `values_of(idx)`.
pub fn build_table<T, F: Fn(Vec<usize>) -> T>(params: &Vec<Param>, body: &F) -> (r: Vec<T>)
    requires
        params_valid(views_of(params@)),
        table_size(views_of(params@)) <= usize::MAX,
        forall|vals: Vec<usize>|
            values_in_range(views_of(params@), vals@) ==> call_requires(*body, (vals,)),
    ensures
        r@.len() == table_size(views_of(params@)),
        forall|idx: Seq<usize>|
            indices_in_range(views_of(params@), idx) ==> may_produce(
                *body,
                values_of(views_of(params@), idx),
                #[trigger] r@[flat_index(views_of(params@), idx)],
            ),
{
    let ghost vs = views_of(params@);
    let tuples = enumerate_values(params);
    let mut out: Vec<T> = Vec::new();
    let mut j: usize = 0;
    while j < tuples.len()
        invariant
            vs == views_of(params@),
            params_valid(vs),
            forall|vals: Vec<usize>|
                values_in_range(vs, vals@) ==> call_requires(*body, (vals,)),
            tuples@.len() == table_size(vs),
            forall|jj: int|
                0 <= jj < tuples@.len() ==> values_in_range(vs, #[trigger] tuples@[jj]@),
            forall|idx: Seq<usize>|
                indices_in_range(vs, idx) ==> #[trigger] tuples@[flat_index(vs, idx)]@
                    == values_of(vs, idx),
            0 <= j <= tuples@.len(),
            out@.len() == j,
            forall|jj: int| 0 <= jj < j ==> may_produce(*body, tuples@[jj]@, #[trigger] out@[jj]),
        decreases tuples@.len() - j,
    {
        let t = clone_tuple(&tuples[j]);
        let ghost tg = t;
        let ghost prev = out@;
        let v = body(t);
        out.push(v);
        proof {
            assert(out@ == prev.push(v));
            assert(call_ensures(*body, (tg,), v));
            assert(may_produce(*body, tuples@[j as int]@, v));
            assert forall|jj: int| 0 <= jj < j + 1 implies may_produce(
                *body,
                tuples@[jj]@,
                #[trigger] out@[jj],
            ) by {
                if jj < j {
                    assert(out@[jj] == prev[jj]);
                    assert(may_produce(*body, tuples@[jj]@, prev[jj]));
                } else {
                    assert(out@[jj] == v);
                }
            }
        }
        j = j + 1;
    }
    proof {
        assert forall|idx: Seq<usize>| indices_in_range(vs, idx) implies may_produce(
            *body,
            values_of(vs, idx),
            #[trigger] out@[flat_index(vs, idx)],
        ) by {
            lemma_flat_index_bounds(vs, idx);
            let jj = flat_index(vs, idx);
            assert(tuples@[jj]@ == values_of(vs, idx));
            assert(may_produce(*body, tuples@[jj]@, out@[jj]));
        }
    }
    out
}

/// The table holds, at the row-major position of every in-range index
/// tuple, exactly the cell function's value for the addressed parameter
/// values.
pub open spec fn exhaustively_correct<T>(
    ps: Seq<ParamModel>,
    tab: Seq<T>,
    cell: spec_fn(Seq<usize>) -> T,
) -> bool {
    &&& tab.len() == table_size(ps)
    &&& forall|idx: Seq<usize>|
        indices_in_range(ps, idx) ==> #[trigger] tab[flat_index(ps, idx)] == cell(
            values_of(ps, idx),
        )
}

/// Exhaustive correctness law: when the body is a function of the value
/// tuple alone -- every result it may return equals `cell` of its argument
/// -- a table built by `build_table` holds exactly `cell` of the addressed
/// values in every cell.
pub proof fn lemma_build_table_exhaustive<T, F: Fn(Vec<usize>) -> T>(
    ps: Seq<ParamModel>,
    tab: Seq<T>,
    body: F,
    cell: spec_fn(Seq<usize>) -> T,
)
    requires
        tab.len() == table_size(ps),
        forall|vals: Vec<usize>, out: T| call_ensures(body, (vals,), out) ==> out == cell(vals@),
        forall|idx: Seq<usize>|
            indices_in_range(ps, idx) ==> may_produce(
                body,
                values_of(ps, idx),
                #[trigger] tab[flat_index(ps, idx)],
            ),
    ensures
        exhaustively_correct(ps, tab, cell),
{
    assert forall|idx: Seq<usize>| indices_in_range(ps, idx) implies #[trigger] tab[flat_index(
        ps,
        idx,
    )] == cell(values_of(ps, idx)) by {
        assert(may_produce(body, values_of(ps, idx), tab[flat_index(ps, idx)]));
        let vals = choose|vals: Vec<usize>|
            vals@ == values_of(ps, idx) && call_ensures(
                body,
                (vals,),
                #[trigger] tab[flat_index(ps, idx)],
            );
        assert(tab[flat_index(ps, idx)] == cell(vals@));
    }
}

/// Exhaustive correctness at the accessor: in a well-formed table whose
/// entries are exhaustively correct for `cell`, the cell that `get`
/// returns for an in-range index tuple is exactly `cell` of the addressed
/// parameter values.
pub proof fn lemma_lookup_exhaustive<T>(
    t: LutTable<T>,
    cell: spec_fn(Seq<usize>) -> T,
    idx: Seq<usize>,
)
    requires
        t.wf(),
        exhaustively_correct(t.models(), t.entries@, cell),
        indices_in_range(t.models(), idx),
    ensures
        t.entries@[flat_index(t.models(), idx)] == cell(values_of(t.models(), idx)),
{
}

/// Order-sensitivity law: swapping the declared order of two parameters
/// swaps both the table's dimension order and the lookup's argument order
/// consistently. If one table is exhaustively correct for declaration
/// order `(p, q)` and another for `(q, p)`, with the same cell function up
/// to the matching argument swap, then looking up `(a, b)` in the first
/// equals looking up `(b, a)` in the second.
pub proof fn lemma_order_sensitivity<T>(
    p: ParamModel,
    q: ParamModel,
    tab_pq: Seq<T>,
    tab_qp: Seq<T>,
    cell_pq: spec_fn(Seq<usize>) -> T,
    cell_qp: spec_fn(Seq<usize>) -> T,
    a: usize,
    b: usize,
)
    requires
        param_valid(p),
        param_valid(q),
        exhaustively_correct(seq![p, q], tab_pq, cell_pq),
        exhaustively_correct(seq![q, p], tab_qp, cell_qp),
        forall|v: Seq<usize>| v.len() == 2 ==> #[trigger] cell_qp(v) == cell_pq(seq![v[1], v[0]]),
        index_in_range(p, a as int),
        index_in_range(q, b as int),
    ensures
        tab_pq[flat_index(seq![p, q], seq![a, b])] == tab_qp[flat_index(seq![q, p], seq![b, a])],
{
    let ps1 = seq![p, q];
    let ix1 = seq![a, b];
    let ps2 = seq![q, p];
    let ix2 = seq![b, a];
    assert(indices_in_range(ps1, ix1));
    assert(indices_in_range(ps2, ix2));
    assert(tab_pq[flat_index(ps1, ix1)] == cell_pq(values_of(ps1, ix1)));
    assert(tab_qp[flat_index(ps2, ix2)] == cell_qp(values_of(ps2, ix2)));
    let v2 = values_of(ps2, ix2);
    assert(v2.len() == 2);
    assert(cell_qp(v2) == cell_pq(seq![v2[1], v2[0]]));
    assert(seq![v2[1], v2[0]] =~= values_of(ps1, ix1));
}

/// A generated lookup table: the validated parameters, in declared order,
/// and one precomputed entry per combination of parameter values, packed
/// densely in row-major order.
pub struct LutTable<T> {
    /// The table's dimensions, outermost first.
    pub params: Vec<Param>,
    /// The precomputed cells, entry `flat_index(idx)` holding the value
    /// for index tuple `idx`.
    pub entries: Vec<T>,
}

impl<T> LutTable<T> {
    /// The models of the table's parameters, in declared order.
    pub open spec fn models(&self) -> Seq<ParamModel> {
        views_of(self.params@)
    }

    /// Well-formedness: valid parameters and a densely filled table of
    /// exactly one entry per combination.
    pub open spec fn wf(&self) -> bool {
        &&& params_valid(self.models())
        &&& table_size(self.models()) <= usize::MAX
        &&& self.entries@.len() == table_size(self.models())
    }

    /// Constant-time lookup: one run-time index per parameter, in declared
    /// order, each strictly below its dimension's count.
    ///
    /// Callers outside verified code must not rely on this method to
    /// detect an out-of-range tuple: a miss in one dimension can still
    /// flatten to a position inside the buffer and return another cell.
    /// Such callers use [`Self::get_checked`], which reports every
    /// out-of-range tuple as `None`.
    pub fn get(&self, idx: &Vec<usize>) -> (r: &T)
        requires
            self.wf(),
            indices_in_range(self.models(), idx@),
        ensures
            *r == self.entries@[flat_index(self.models(), idx@)],
    {
        proof {
            lemma_flat_index_bounds(self.models(), idx@);
        }
        let i = flat_index_of(&self.params, idx);
        &self.entries[i]
    }

    /// Checked lookup: `Some` exactly when every index is inside its
    /// dimension, `None` for any tuple that is out of range.
    pub fn get_checked(&self, idx: &Vec<usize>) -> (r: Option<&T>)
        requires
            self.wf(),
        ensures
            match r {
                Some(v) => indices_in_range(self.models(), idx@) && *v == self.entries@[
                    flat_index(self.models(), idx@)
                ],
                None => !indices_in_range(self.models(), idx@),
            },
    {
        if idx.len() != self.params.len() {
            return None;
        }
        let mut k: usize = 0;
        while k < self.params.len()
            invariant
                self.wf(),
                idx@.len() == self.models().len(),
                0 <= k <= self.models().len(),
                forall|kk: int|
                    0 <= kk < k ==> index_in_range(self.models()[kk], #[trigger] idx@[kk] as int),
            decreases self.models().len() - k,
        {
            proof {
                assert(self.models()[k as int] == self.params@[k as int]@);
            }
            if !self.params[k].index_valid(idx[k]) {
                return None;
            }
            k = k + 1;
        }
        Some(self.get(idx))
    }

    /// Number of entries: the product of all dimension counts.
    pub fn size(&self) -> (r: usize)
        requires
            self.wf(),
        ensures
            r == table_size(self.models()),
    {
        self.entries.len()
    }

    /// The table's shape: the count of each dimension, outermost first.
    pub fn shape(&self) -> (r: Vec<usize>)
        requires
            self.wf(),
        ensures
            r@.len() == self.models().len(),
            forall|k: int|
                0 <= k < r@.len() ==> #[trigger] r@[k] == param_count(self.models()[k]),
    {
        let mut r: Vec<usize> = Vec::new();
        let mut k: usize = 0;
        while k < self.params.len()
            invariant
                self.wf(),
                0 <= k <= self.models().len(),
                r@.len() == k,
                forall|kk: int|
                    0 <= kk < k ==> #[trigger] r@[kk] == param_count(self.models()[kk]),
            decreases self.models().len() - k,
        {
            proof {
                lemma_param_count_le_table_size(self.models(), k as int);
            }
            r.push(self.params[k].count());
            k = k + 1;
        }
        r
    }
}

} // verus!
