//! Axis reductions of normalized 2-D inputs of non-floating elements whose
//! result is an element of the input (least, greatest, lower median), the
//! parallel class each reduction is scheduled in, and the layout of several
//! results per output element.
//!
//! Layouts, both row-major: for the last axis, `data` has shape `(outer, n)`
//! and output `i` reduces row `data[i * n .. (i + 1) * n]`; for axis 0, `data`
//! has shape `(n, outer)` and output `j` reduces column
//! `data[j], data[outer + j], ..., data[(n - 1) * outer + j]`.

use vstd::prelude::*;
use vstd::slice::{slice_subrange, slice_to_vec};

use crate::finite::ScanPolicy;
use crate::number::{
    is_greatest, is_least, is_rank, lemma_greatest_is_maximum, lemma_least_is_minimum,
    lemma_lower_median_rank, lemma_pivot_rank, lemma_rank_unique, lemma_rank_permutation, lower_median_rank,
    Number,
};
use crate::parallel::AxisParallelClass;
use crate::reducers_1d::{
    number_lmedian_value_in_place, number_max_value, number_min_value, select_nth, Kind,
};

verus! {

/// The parallel class of a float scan reduction.
pub fn scan_class(kind: Kind, policy: ScanPolicy) -> (c: AxisParallelClass)
    ensures
        c == (if kind == Kind::Var || kind == Kind::Std {
            AxisParallelClass::ScanVar
        } else if policy == ScanPolicy::SkipNan || policy == ScanPolicy::SkipNonFinite {
            AxisParallelClass::ScanNan
        } else {
            AxisParallelClass::ScanPlain
        }),
{
    match kind {
        Kind::Var | Kind::Std => AxisParallelClass::ScanVar,
        _ => if matches!(policy, ScanPolicy::SkipNan | ScanPolicy::SkipNonFinite) {
            AxisParallelClass::ScanNan
        } else {
            AxisParallelClass::ScanPlain
        },
    }
}

/// The parallel class of a non-floating scan reduction.
pub fn number_scan_class(kind: Kind) -> (c: AxisParallelClass)
    ensures
        c == (if kind == Kind::Var || kind == Kind::Std {
            AxisParallelClass::ScanVar
        } else {
            AxisParallelClass::ScanPlain
        }),
{
    match kind {
        Kind::Var | Kind::Std => AxisParallelClass::ScanVar,
        _ => AxisParallelClass::ScanPlain,
    }
}

/// Row `i` of `data` laid out as rows of `n` elements.
pub open spec fn row_of<T>(data: Seq<T>, n: int, i: int) -> Seq<T> {
    data.subrange(i * n, i * n + n)
}

/// Column `j` of `data` laid out as `n` rows of `outer` elements.
pub open spec fn column_of<T>(data: Seq<T>, n: int, outer: int, j: int) -> Seq<T> {
    Seq::new(n as nat, |k: int| data[k * outer + j])
}

/// `x` is what a reduction of kind `kind` gives for `s`: the least element
/// for `Min`, the greatest for `Max`, the lower median for every other kind.
pub open spec fn exact_result<T: Number>(s: Seq<T>, kind: Kind, x: T) -> bool {
    if kind == Kind::Min {
        is_least(s, x)
    } else if kind == Kind::Max {
        is_greatest(s, x)
    } else {
        is_rank(s, lower_median_rank(s.len() as int), x)
    }
}

/// Positions in a grid of `n` rows of `outer` elements.
proof fn lemma_grid_index(k: int, j: int, n: int, outer: int)
    requires
        0 <= k < n,
        0 <= j < outer,
    ensures
        0 <= k * outer,
        k * outer + j < n * outer,
        k * outer + outer <= n * outer,
{
    assert(k * outer + outer <= n * outer) by (nonlinear_arith)
        requires
            0 <= k < n,
            0 <= j < outer,
    ;
    assert(0 <= k * outer) by (nonlinear_arith)
        requires
            0 <= k,
            0 <= outer,
    ;
}

/// Lower median of a non-empty buffer, reordering it.
fn axis_lmedian_number_value<T: Number>(buf: &mut [T]) -> (v: T)
    requires
        old(buf)@.len() > 0,
    ensures
        final(buf)@.len() == old(buf)@.len(),
        final(buf)@.to_multiset() == old(buf)@.to_multiset(),
        is_rank(old(buf)@, lower_median_rank(old(buf)@.len() as int), v),
{
    let idx = (buf.len() - 1) / 2;
    select_nth(buf, idx);
    let value = buf[idx];
    proof {
        lemma_pivot_rank(buf@, idx as int);
        lemma_rank_permutation(old(buf)@, buf@, idx as int, value);
    }
    value
}

/// Reduce each row of `data` shaped `(outer, n)` (row-major) to one of its
/// elements: the least (`Min`), the greatest (`Max`) or the lower median
/// (`LMedian`).
pub fn reduce_axis_last_number_exact<T: Number>(
    data: &[T],
    outer: usize,
    n: usize,
    kind: Kind,
) -> (out: Vec<T>)
    requires
        outer * n <= data@.len(),
        outer > 0 ==> n > 0,
        kind == Kind::Min || kind == Kind::Max || kind == Kind::LMedian,
    ensures
        out@.len() == outer,
        forall|i: int|
            0 <= i < outer ==> exact_result(row_of(data@, n as int, i), kind, #[trigger] out@[i]),
{
    let len = data.len();
    let mut out: Vec<T> = Vec::new();
    let mut i: usize = 0;
    while i < outer
        invariant
            len == data@.len(),
            outer * n <= data@.len(),
            outer > 0 ==> n > 0,
            kind == Kind::Min || kind == Kind::Max || kind == Kind::LMedian,
            i <= outer,
            out@.len() == i,
            forall|p: int|
                0 <= p < i ==> exact_result(row_of(data@, n as int, p), kind, #[trigger] out@[p]),
        decreases outer - i,
    {
        proof {
            lemma_grid_index(i as int, 0, outer as int, n as int);
        }
        let start = i * n;
        let row = slice_subrange(data, start, start + n);
        assert(row@ == row_of(data@, n as int, i as int));
        let v = match kind {
            Kind::Min => number_min_value(row).unwrap(),
            Kind::Max => number_max_value(row).unwrap(),
            _ => {
                let mut buf = slice_to_vec(row);
                let v = number_lmedian_value_in_place(buf.as_mut_slice()).unwrap();
                v
            },
        };
        out.push(v);
        i = i + 1;
    }
    out
}

/// Lower median of columns `start .. start + count` of `data` shaped
/// `(n, outer)`.
fn reduce_axis0_number_order_exact<T: Number>(
    data: &[T],
    n: usize,
    outer: usize,
    start: usize,
    count: usize,
) -> (out: Vec<T>)
    requires
        n * outer <= data@.len(),
        n > 0,
        start + count <= outer,
    ensures
        out@.len() == count,
        forall|j: int|
            0 <= j < count ==> is_rank(
                column_of(data@, n as int, outer as int, start + j),
                lower_median_rank(n as int),
                #[trigger] out@[j],
            ),
{
    let len = data.len();
    let mut out: Vec<T> = Vec::new();
    if count == 0 {
        return out;
    }
    proof {
        lemma_grid_index(0, start as int, n as int, outer as int);
    }
    let mut buf: Vec<T> = Vec::new();
    let mut k: usize = 0;
    while k < n
        invariant
            len == data@.len(),
            len > 0,
            buf@.len() == k,
            k <= n,
        decreases n - k,
    {
        buf.push(data[0]);
        k = k + 1;
    }
    let mut j: usize = 0;
    while j < count
        invariant
            len == data@.len(),
            n * outer <= data@.len(),
            n > 0,
            start + count <= outer,
            j <= count,
            buf@.len() == n,
            out@.len() == j,
            forall|p: int|
                0 <= p < j ==> is_rank(
                    column_of(data@, n as int, outer as int, start + p),
                    lower_median_rank(n as int),
                    #[trigger] out@[p],
                ),
        decreases count - j,
    {
        let col = start + j;
        let mut k: usize = 0;
        while k < n
            invariant
                len == data@.len(),
                n * outer <= data@.len(),
                col < outer,
                k <= n,
                buf@.len() == n,
                forall|q: int| 0 <= q < k ==> #[trigger] buf@[q] == data@[q * outer + col],
            decreases n - k,
        {
            proof {
                lemma_grid_index(k as int, col as int, n as int, outer as int);
            }
            buf.set(k, data[k * outer + col]);
            k = k + 1;
        }
        assert(buf@ =~= column_of(data@, n as int, outer as int, col as int));
        let v = axis_lmedian_number_value(buf.as_mut_slice());
        out.push(v);
        j = j + 1;
    }
    out
}

/// Reduce columns `start .. start + count` of `data` shaped `(n, outer)`
/// (row-major, `n > 0` rows) to one of their elements each: the least
/// (`Min`), the greatest (`Max`), or else the lower median. Element `j` of
/// the result is that of column `start + j`.
pub fn reduce_axis0_number_exact_columns<T: Number>(
    data: &[T],
    n: usize,
    outer: usize,
    start: usize,
    count: usize,
    kind: Kind,
) -> (out: Vec<T>)
    requires
        n * outer <= data@.len(),
        n > 0,
        start + count <= outer,
    ensures
        out@.len() == count,
        forall|j: int|
            0 <= j < count ==> exact_result(
                column_of(data@, n as int, outer as int, start + j),
                kind,
                #[trigger] out@[j],
            ),
{
    let len = data.len();
    if !matches!(kind, Kind::Min | Kind::Max) {
        return reduce_axis0_number_order_exact(data, n, outer, start, count);
    }
    if count == 0 {
        return Vec::new();
    }
    proof {
        lemma_grid_index(0, start + count - 1, n as int, outer as int);
    }
    let mut out = slice_to_vec(slice_subrange(data, start, start + count));
    let is_min = matches!(kind, Kind::Min);
    // witnesses: out[j] is the element of row wit[j] of column start + j
    let ghost mut wit: Seq<int> = Seq::new(count as nat, |j: int| 0int);
    let mut k: usize = 1;
    while k < n
        invariant
            len == data@.len(),
            n * outer <= data@.len(),
            n > 0,
            start + count <= outer,
            1 <= k <= n,
            is_min == (kind == Kind::Min),
            kind == Kind::Min || kind == Kind::Max,
            out@.len() == count,
            wit.len() == count,
            forall|j: int|
                0 <= j < count ==> 0 <= #[trigger] wit[j] < k && out@[j] == data@[wit[j] * outer
                    + start + j],
            forall|j: int, q: int|
                0 <= j < count && 0 <= q < k ==> (if is_min {
                    (#[trigger] out@[j]).as_int() <= (#[trigger] data@[q * outer + start
                        + j]).as_int()
                } else {
                    data@[q * outer + start + j].as_int() <= out@[j].as_int()
                }),
        decreases n - k,
    {
        let mut j: usize = 0;
        while j < count
            invariant
                len == data@.len(),
                n * outer <= data@.len(),
                start + count <= outer,
                1 <= k < n,
                j <= count,
                is_min == (kind == Kind::Min),
                out@.len() == count,
                wit.len() == count,
                forall|p: int|
                    0 <= p < count ==> 0 <= #[trigger] wit[p] <= k && out@[p] == data@[wit[p]
                        * outer + start + p],
                forall|p: int, q: int|
                    0 <= p < count && 0 <= q < k ==> (if is_min {
                        (#[trigger] out@[p]).as_int() <= (#[trigger] data@[q * outer + start
                            + p]).as_int()
                    } else {
                        data@[q * outer + start + p].as_int() <= out@[p].as_int()
                    }),
                forall|p: int|
                    0 <= p < j ==> (if is_min {
                        (#[trigger] out@[p]).as_int() <= data@[k * outer + start + p].as_int()
                    } else {
                        data@[k * outer + start + p].as_int() <= out@[p].as_int()
                    }),
            decreases count - j,
        {
            proof {
                lemma_grid_index(k as int, start + j, n as int, outer as int);
            }
            let x = data[k * outer + start + j];
            let better = if is_min {
                x.less_than(&out[j])
            } else {
                out[j].less_than(&x)
            };
            if better {
                out.set(j, x);
                proof {
                    wit = wit.update(j as int, k as int);
                }
            }
            j = j + 1;
        }
        proof {
            assert forall|p: int, q: int|
                0 <= p < count && 0 <= q < k + 1 implies (if is_min {
                (#[trigger] out@[p]).as_int() <= (#[trigger] data@[q * outer + start
                    + p]).as_int()
            } else {
                data@[q * outer + start + p].as_int() <= out@[p].as_int()
            }) by {
                if q == k {
                }
            }
        }
        k = k + 1;
    }
    proof {
        assert forall|j: int| 0 <= j < count implies exact_result(
            column_of(data@, n as int, outer as int, start + j),
            kind,
            #[trigger] out@[j],
        ) by {
            let col = column_of(data@, n as int, outer as int, start + j);
            assert(col[wit[j]] == out@[j]);
            assert forall|q: int| 0 <= q < col.len() implies (if is_min {
                out@[j].as_int() <= #[trigger] col[q].as_int()
            } else {
                col[q].as_int() <= out@[j].as_int()
            }) by {
                assert(col[q] == data@[q * outer + start + j]);
            }
        }
    }
    out
}

/// Reduce each column of `data` shaped `(n, outer)` (row-major) to one of its
/// elements: the least (`Min`), the greatest (`Max`), or else the lower
/// median.
///
/// With `n == 0` (no rows), `Min` and `Max` give the first `outer` elements
/// of `data` unchanged.
pub fn reduce_axis0_number_exact<T: Number>(data: &[T], n: usize, outer: usize, kind: Kind) -> (out:
    Vec<T>)
    requires
        n * outer <= data@.len(),
        n > 0 || outer == 0 || ((kind == Kind::Min || kind == Kind::Max) && outer
            <= data@.len()),
    ensures
        out@.len() == outer,
        n > 0 ==> forall|j: int|
            0 <= j < outer ==> exact_result(
                column_of(data@, n as int, outer as int, j),
                kind,
                #[trigger] out@[j],
            ),
        n == 0 ==> out@ == data@.take(outer as int),
{
    if n == 0 {
        let out = slice_to_vec(slice_subrange(data, 0, outer));
        proof {
            assert(out@ =~= data@.take(outer as int));
        }
        return out;
    }
    let out = reduce_axis0_number_exact_columns(data, n, outer, 0, outer, kind);
    proof {
        assert forall|j: int| 0 <= j < outer implies exact_result(
            column_of(data@, n as int, outer as int, j),
            kind,
            #[trigger] out@[j],
        ) by {
            assert(column_of(data@, n as int, outer as int, 0 + j) == column_of(
                data@,
                n as int,
                outer as int,
                j,
            ));
        }
    }
    out
}

/// `t` holds `data` transposed: `data` has `n` rows of `outer` elements and
/// `t` has `outer` rows of `n` elements, element `(k, j)` of the one being
/// element `(j, k)` of the other.
pub open spec fn is_transpose<T>(data: Seq<T>, t: Seq<T>, n: int, outer: int) -> bool {
    &&& n * outer <= data.len()
    &&& outer * n <= t.len()
    &&& forall|k: int, j: int|
        0 <= k < n && 0 <= j < outer ==> #[trigger] t[j * n + k] == #[trigger] data[k * outer + j]
}

/// A sequence has one least element, one greatest and one of each rank.
pub proof fn lemma_exact_result_unique<T: Number>(s: Seq<T>, kind: Kind, x: T, y: T)
    requires
        exact_result(s, kind, x),
        exact_result(s, kind, y),
    ensures
        x == y,
{
    if kind == Kind::Min || kind == Kind::Max {
        let i = choose|i: int| 0 <= i < s.len() && s[i] == x;
        let j = choose|j: int| 0 <= j < s.len() && s[j] == y;
        assert(x.as_int() == y.as_int()) by {
            assert(s[i] == x);
            assert(s[j] == y);
        }
        T::as_int_injective(x, y);
    } else {
        lemma_rank_unique(s, lower_median_rank(s.len() as int), x, y);
    }
}

/// Reducing the columns of `data` gives what reducing the rows of its
/// transpose gives.
pub proof fn lemma_axis0_is_axis_last_of_transpose<T: Number>(
    data: Seq<T>,
    t: Seq<T>,
    n: int,
    outer: int,
    kind: Kind,
    by_columns: Seq<T>,
    by_rows: Seq<T>,
)
    requires
        n > 0,
        outer >= 0,
        is_transpose(data, t, n, outer),
        by_columns.len() == outer,
        by_rows.len() == outer,
        forall|j: int|
            0 <= j < outer ==> exact_result(column_of(data, n, outer, j), kind, #[trigger] by_columns[j]),
        forall|i: int| 0 <= i < outer ==> exact_result(row_of(t, n, i), kind, #[trigger] by_rows[i]),
    ensures
        by_columns == by_rows,
{
    assert forall|j: int| 0 <= j < outer implies by_columns[j] == by_rows[j] by {
        let col = column_of(data, n, outer, j);
        let row = row_of(t, n, j);
        lemma_grid_index(j, 0, outer, n);
        assert forall|k: int| 0 <= k < n implies col[k] == row[k] by {
            lemma_grid_index(k, j, n, outer);
            assert(row[k] == t[j * n + k]);
            assert(t[j * n + k] == data[k * outer + j]);
        }
        assert(col =~= row);
        assert(exact_result(col, kind, by_columns[j]));
        assert(exact_result(row, kind, by_rows[j]));
        lemma_exact_result_unique(col, kind, by_columns[j], by_rows[j]);
    }
    assert(by_columns =~= by_rows);
}

/// Whether a reduction of non-floating elements along an axis of `n`
/// elements gives elements of the input: a min, max or lower median over a
/// reducing axis that is not empty.
pub open spec fn gives_exact_elements(kind: Kind, n: int) -> bool {
    (kind == Kind::Min || kind == Kind::Max || kind == Kind::LMedian) && n > 0
}

/// The exact reduction of a non-floating `(d0, d1)` matrix along its last
/// axis (`axis_last`) or along axis 0, when it gives elements of the input
/// (see [`gives_exact_elements`]); `None` when the result is a float instead.
pub fn reduce_axis_number_exact<T: Number>(
    data: &[T],
    d0: usize,
    d1: usize,
    kind: Kind,
    axis_last: bool,
) -> (r: Option<Vec<T>>)
    requires
        d0 * d1 <= data@.len(),
    ensures
        r is Some <==> gives_exact_elements(kind, if axis_last { d1 as int } else { d0 as int }),
        r matches Some(out) ==> axis_last ==> out@.len() == d0 && forall|i: int|
            0 <= i < d0 ==> exact_result(row_of(data@, d1 as int, i), kind, #[trigger] out@[i]),
        r matches Some(out) ==> !axis_last ==> out@.len() == d1 && forall|j: int|
            0 <= j < d1 ==> exact_result(
                column_of(data@, d0 as int, d1 as int, j),
                kind,
                #[trigger] out@[j],
            ),
{
    let exact = matches!(kind, Kind::Min | Kind::Max | Kind::LMedian);
    if axis_last {
        if exact && d1 > 0 {
            Some(reduce_axis_last_number_exact(data, d0, d1, kind))
        } else {
            None
        }
    } else {
        if exact && d0 > 0 {
            Some(reduce_axis0_number_exact(data, d0, d1, kind))
        } else {
            None
        }
    }
}

/// Lay out `nq` results for each of the `outer` output elements of
/// `per_output` as `nq` rows of `outer`: element `qi * outer + j` is result
/// `qi` of output element `j`.
pub fn quantile_major<V: Copy>(per_output: &Vec<Vec<V>>, nq: usize) -> (out: Vec<V>)
    requires
        forall|j: int| 0 <= j < per_output@.len() ==> (#[trigger] per_output@[j])@.len() == nq,
        nq * per_output@.len() <= usize::MAX,
    ensures
        out@.len() == nq * per_output@.len(),
        forall|qi: int, j: int|
            0 <= qi < nq && 0 <= j < per_output@.len() ==> out@[qi * per_output@.len() + j]
                == per_output@[j]@[qi],
{
    let outer = per_output.len();
    let mut out: Vec<V> = Vec::new();
    let mut qi: usize = 0;
    while qi < nq
        invariant
            outer == per_output@.len(),
            forall|j: int| 0 <= j < outer ==> (#[trigger] per_output@[j])@.len() == nq,
            nq * outer <= usize::MAX,
            qi <= nq,
            out@.len() == qi * outer,
            forall|q: int, j: int|
                0 <= q < qi && 0 <= j < outer ==> #[trigger] out@[q * outer + j]
                    == per_output@[j]@[q],
        decreases nq - qi,
    {
        let mut j: usize = 0;
        while j < outer
            invariant
                outer == per_output@.len(),
                forall|p: int| 0 <= p < outer ==> (#[trigger] per_output@[p])@.len() == nq,
                nq * outer <= usize::MAX,
                qi < nq,
                j <= outer,
                out@.len() == qi * outer + j,
                forall|q: int, p: int|
                    0 <= q < qi && 0 <= p < outer ==> #[trigger] out@[q * outer + p]
                        == per_output@[p]@[q],
                forall|p: int| 0 <= p < j ==> #[trigger] out@[qi * outer + p] == per_output@[p]@[qi as int],
            decreases outer - j,
        {
            proof {
                lemma_grid_index(qi as int, j as int, nq as int, outer as int);
            }
            let v = per_output[j][qi];
            out.push(v);
            proof {
                assert forall|q: int, p: int|
                    0 <= q < qi && 0 <= p < outer implies #[trigger] out@[q * outer + p]
                        == per_output@[p]@[q] by {
                    lemma_grid_index(q, p, qi as int, outer as int);
                }
            }
            j = j + 1;
        }
        proof {
            assert((qi + 1) * outer == qi * outer + outer) by (nonlinear_arith);
            assert forall|q: int, p: int|
                0 <= q < qi + 1 && 0 <= p < outer implies #[trigger] out@[q * outer + p]
                    == per_output@[p]@[q] by {
                if q < qi {
                }
            }
        }
        qi = qi + 1;
    }
    out
}

/// What each exact reduction gives: for `Min`, an element of the whole row
/// or column at or below all of it; for `Max`, one at or above all of it;
/// for the other kinds, the element of rank `(len - 1) / 2`, the lower of
/// the two middle elements.
pub proof fn lemma_exact_result_meaning<T: Number>(s: Seq<T>, kind: Kind, x: T)
    ensures
        kind == Kind::Min ==> (exact_result(s, kind, x) <==> (exists|i: int|
            0 <= i < s.len() && s[i] == x) && (forall|i: int|
            0 <= i < s.len() ==> x.as_int() <= #[trigger] s[i].as_int())),
        kind == Kind::Max ==> (exact_result(s, kind, x) <==> (exists|i: int|
            0 <= i < s.len() && s[i] == x) && (forall|i: int|
            0 <= i < s.len() ==> #[trigger] s[i].as_int() <= x.as_int())),
        kind != Kind::Min && kind != Kind::Max && s.len() >= 1 ==> (exact_result(s, kind, x)
            <==> is_rank(s, (s.len() - 1) / 2, x)),
{
    lemma_least_is_minimum(s, x);
    lemma_greatest_is_maximum(s, x);
    if s.len() >= 1 {
        lemma_lower_median_rank(s.len() as int);
    }
}

/// The layouts: element `k` of row `i` of rows of `n` is `data[i * n + k]`,
/// and element `k` of column `j` of rows of `outer` is
/// `data[k * outer + j]`; a row and a column hold `n` elements.
pub proof fn lemma_layout_meaning<T>(data: Seq<T>, n: int, outer: int, i: int, j: int)
    requires
        n >= 0,
        0 <= i,
        (i + 1) * n <= data.len(),
    ensures
        row_of(data, n, i).len() == n,
        forall|k: int| 0 <= k < n ==> #[trigger] row_of(data, n, i)[k] == data[i * n + k],
        column_of(data, n, outer, j).len() == n,
        forall|k: int| 0 <= k < n ==> #[trigger] column_of(data, n, outer, j)[k] == data[k * outer + j],
{
    assert((i + 1) * n == i * n + n) by (nonlinear_arith);
    assert(0 <= i * n) by (nonlinear_arith)
        requires
            0 <= i,
            0 <= n,
    ;
}

} // verus!
