//! 1-D reducer kernels on non-floating elements, and the reducer kinds used
//! by the axis dispatch.
//!
//! The kernels here return elements of the input (least, greatest, lower
//! median, the two middle elements, the elements of given ranks) or counts;
//! averaging or interpolating them into a float is the caller's part.

use std::cmp::Ordering;
use vstd::arithmetic::power2::{lemma2_to64, lemma_pow2_unfold, pow2};
use vstd::prelude::*;

use crate::finite::ScanPolicy;
use crate::number::{
    is_greatest, is_least, is_rank, lemma_lower_neighbour_rank, lemma_pivot_rank,
    lemma_rank_is_sorted_position, lemma_rank_permutation, lemma_rank_unique,
    lemma_ranks_ordered, lemma_reorder_suffix, lemma_select_step, lower_median_rank,
    ordered_split, partitioned_at, prefix, suffix, Number,
};

verus! {

/// Scalar reducer kind, for axis dispatch.
#[derive(Clone, Copy, Debug, PartialEq, Eq, Structural)]
pub enum Kind {
    Mean,
    Sum,
    Min,
    Max,
    Median,
    LMedian,
    Var,
    Std,
    CountFinite,
}

/// The kind that a boundary code names: 0 to 8 in declaration order.
pub open spec fn kind_of_code(code: u8) -> Kind
    recommends
        code < 9,
{
    if code == 0 {
        Kind::Mean
    } else if code == 1 {
        Kind::Sum
    } else if code == 2 {
        Kind::Min
    } else if code == 3 {
        Kind::Max
    } else if code == 4 {
        Kind::Median
    } else if code == 5 {
        Kind::LMedian
    } else if code == 6 {
        Kind::Var
    } else if code == 7 {
        Kind::Std
    } else {
        Kind::CountFinite
    }
}

impl Kind {
    /// Code used at the Python boundary. Codes above 8 are a caller error
    /// (they panic at the boundary).
    pub fn from_code(code: u8) -> (k: Self)
        requires
            code < 9,
        ensures
            k == kind_of_code(code),
    {
        match code {
            0 => Kind::Mean,
            1 => Kind::Sum,
            2 => Kind::Min,
            3 => Kind::Max,
            4 => Kind::Median,
            5 => Kind::LMedian,
            6 => Kind::Var,
            7 => Kind::Std,
            _ => Kind::CountFinite,
        }
    }

    /// Does this kind reorder its input buffer (order statistic)?
    pub fn needs_mut(self) -> (r: bool)
        ensures
            r == (self == Kind::Median || self == Kind::LMedian),
    {
        matches!(self, Kind::Median | Kind::LMedian)
    }
}

/// Each kind has exactly one code: codes 0 to 8 name the nine kinds, and
/// distinct codes name distinct kinds.
pub proof fn lemma_kind_codes_bijective(k: Kind)
    ensures
        exists|c: u8| c < 9 && #[trigger] kind_of_code(c) == k,
        forall|a: u8, b: u8| a < 9 && b < 9 && kind_of_code(a) == kind_of_code(b) ==> a == b,
{
    match k {
        Kind::Mean => assert(kind_of_code(0) == k),
        Kind::Sum => assert(kind_of_code(1) == k),
        Kind::Min => assert(kind_of_code(2) == k),
        Kind::Max => assert(kind_of_code(3) == k),
        Kind::Median => assert(kind_of_code(4) == k),
        Kind::LMedian => assert(kind_of_code(5) == k),
        Kind::Var => assert(kind_of_code(6) == k),
        Kind::Std => assert(kind_of_code(7) == k),
        Kind::CountFinite => assert(kind_of_code(8) == k),
    }
}

// ---------------------------------------------------------------------------
// selection
// ---------------------------------------------------------------------------

/// The order of two elements, by the integers they stand for.
fn order_numbers<T: Number>(a: &T, b: &T) -> (o: Ordering)
    ensures
        (o == Ordering::Less) == (a.as_int() < b.as_int()),
        (o == Ordering::Greater) == (b.as_int() < a.as_int()),
        (o == Ordering::Equal) == (a.as_int() == b.as_int()),
{
    if a.less_than(b) {
        Ordering::Less
    } else if b.less_than(a) {
        Ordering::Greater
    } else {
        Ordering::Equal
    }
}

/// `<[T]>::select_nth_unstable_by` on the part of `buf` from `start` on,
/// ordering elements by [`order_numbers`] (a total order). Its documentation
/// says that it reorders that part so that the element at `index` (counted
/// from `start`) is where a sort would put it, every element before it at
/// most it and every element after it at least it, and that it panics when
/// `index` is out of bounds; the elements before `start` are not touched.
#[verifier::external_body]
pub(crate) fn select_nth_from<T: Number>(buf: &mut [T], start: usize, index: usize)
    requires
        start <= old(buf)@.len(),
        index < suffix(old(buf)@, start).len(),
    ensures
        final(buf)@.len() == old(buf)@.len(),
        prefix(final(buf)@, start) == prefix(old(buf)@, start),
        suffix(final(buf)@, start).to_multiset() == suffix(old(buf)@, start).to_multiset(),
        partitioned_at(suffix(final(buf)@, start), index),
{
    buf[start..].select_nth_unstable_by(index, |a, b| order_numbers(a, b));
}

/// `<[T]>::sort_unstable_by`, ordering elements by [`order_numbers`] (a total
/// order). Its documentation says that it sorts the slice in increasing order
/// of the comparison, as a reordering of its elements.
#[verifier::external_body]
pub(crate) fn sort_numbers<T: Number>(buf: &mut [T])
    ensures
        final(buf)@.len() == old(buf)@.len(),
        final(buf)@.to_multiset() == old(buf)@.to_multiset(),
        forall|i: int, j: int|
            0 <= i <= j < final(buf)@.len() ==> #[trigger] final(buf)@[i].as_int()
                <= #[trigger] final(buf)@[j].as_int(),
{
    buf.sort_unstable_by(|a, b| order_numbers(a, b));
}

/// Reorder `buf` so that the element at `index` is the one of rank `index`,
/// with nothing above it before and nothing below it after.
pub(crate) fn select_nth<T: Number>(buf: &mut [T], index: usize)
    requires
        index < old(buf)@.len(),
    ensures
        final(buf)@.len() == old(buf)@.len(),
        final(buf)@.to_multiset() == old(buf)@.to_multiset(),
        partitioned_at(final(buf)@, index),
{
    proof {
        assert(suffix(buf@, 0) =~= buf@);
    }
    select_nth_from(buf, 0, index);
    proof {
        assert(suffix(buf@, 0) =~= buf@);
    }
}

// ---------------------------------------------------------------------------
// non-floating numeric kernels
// ---------------------------------------------------------------------------

/// Number of finite values: every non-floating value is finite.
pub fn number_count_finite<T: Number>(values: &[T]) -> (c: usize)
    ensures
        c == values@.len(),
{
    values.len()
}

/// The least value, or `None` for an empty slice.
pub fn number_min_value<T: Number>(values: &[T]) -> (r: Option<T>)
    ensures
        r is None <==> values@.len() == 0,
        r matches Some(x) ==> is_least(values@, x),
{
    let n = values.len();
    if n == 0 {
        return None;
    }
    let full = n / 4;
    let mut o0 = values[0];
    let mut o1 = values[0];
    let mut o2 = values[0];
    let mut o3 = values[0];
    let ghost mut w0: int = 0;
    let ghost mut w1: int = 0;
    let ghost mut w2: int = 0;
    let ghost mut w3: int = 0;
    let mut c: usize = 0;
    while c < full
        invariant
            n == values@.len(),
            n > 0,
            full == n / 4,
            c <= full,
            0 <= w0 < n && values@[w0] == o0,
            0 <= w1 < n && values@[w1] == o1,
            0 <= w2 < n && values@[w2] == o2,
            0 <= w3 < n && values@[w3] == o3,
            forall|i: int|
                0 <= i < 4 * c && i % 4 == 0 ==> o0.as_int() <= #[trigger] values@[i].as_int(),
            forall|i: int|
                0 <= i < 4 * c && i % 4 == 1 ==> o1.as_int() <= #[trigger] values@[i].as_int(),
            forall|i: int|
                0 <= i < 4 * c && i % 4 == 2 ==> o2.as_int() <= #[trigger] values@[i].as_int(),
            forall|i: int|
                0 <= i < 4 * c && i % 4 == 3 ==> o3.as_int() <= #[trigger] values@[i].as_int(),
        decreases full - c,
    {
        let b = 4 * c;
        let x0 = values[b];
        if x0.less_than(&o0) {
            o0 = x0;
            proof {
                w0 = b as int;
            }
        }
        let x1 = values[b + 1];
        if x1.less_than(&o1) {
            o1 = x1;
            proof {
                w1 = b + 1;
            }
        }
        let x2 = values[b + 2];
        if x2.less_than(&o2) {
            o2 = x2;
            proof {
                w2 = b + 2;
            }
        }
        let x3 = values[b + 3];
        if x3.less_than(&o3) {
            o3 = x3;
            proof {
                w3 = b + 3;
            }
        }
        c = c + 1;
    }
    let mut out = o0;
    let ghost mut w: int = w0;
    if o1.less_than(&out) {
        out = o1;
        proof {
            w = w1;
        }
    }
    if o2.less_than(&out) {
        out = o2;
        proof {
            w = w2;
        }
    }
    if o3.less_than(&out) {
        out = o3;
        proof {
            w = w3;
        }
    }
    let mut i = 4 * full;
    while i < n
        invariant
            n == values@.len(),
            4 * full <= i <= n,
            0 <= w < n && values@[w] == out,
            forall|j: int| 0 <= j < i ==> out.as_int() <= #[trigger] values@[j].as_int(),
        decreases n - i,
    {
        let x = values[i];
        if x.less_than(&out) {
            out = x;
            proof {
                w = i as int;
            }
        }
        i = i + 1;
    }
    proof {
        assert(values@.contains(out)) by {
            assert(values@[w] == out);
        }
    }
    Some(out)
}

/// The greatest value, or `None` for an empty slice.
pub fn number_max_value<T: Number>(values: &[T]) -> (r: Option<T>)
    ensures
        r is None <==> values@.len() == 0,
        r matches Some(x) ==> is_greatest(values@, x),
{
    let n = values.len();
    if n == 0 {
        return None;
    }
    let full = n / 4;
    let mut o0 = values[0];
    let mut o1 = values[0];
    let mut o2 = values[0];
    let mut o3 = values[0];
    let ghost mut w0: int = 0;
    let ghost mut w1: int = 0;
    let ghost mut w2: int = 0;
    let ghost mut w3: int = 0;
    let mut c: usize = 0;
    while c < full
        invariant
            n == values@.len(),
            n > 0,
            full == n / 4,
            c <= full,
            0 <= w0 < n && values@[w0] == o0,
            0 <= w1 < n && values@[w1] == o1,
            0 <= w2 < n && values@[w2] == o2,
            0 <= w3 < n && values@[w3] == o3,
            forall|i: int|
                0 <= i < 4 * c && i % 4 == 0 ==> #[trigger] values@[i].as_int() <= o0.as_int(),
            forall|i: int|
                0 <= i < 4 * c && i % 4 == 1 ==> #[trigger] values@[i].as_int() <= o1.as_int(),
            forall|i: int|
                0 <= i < 4 * c && i % 4 == 2 ==> #[trigger] values@[i].as_int() <= o2.as_int(),
            forall|i: int|
                0 <= i < 4 * c && i % 4 == 3 ==> #[trigger] values@[i].as_int() <= o3.as_int(),
        decreases full - c,
    {
        let b = 4 * c;
        let x0 = values[b];
        if o0.less_than(&x0) {
            o0 = x0;
            proof {
                w0 = b as int;
            }
        }
        let x1 = values[b + 1];
        if o1.less_than(&x1) {
            o1 = x1;
            proof {
                w1 = b + 1;
            }
        }
        let x2 = values[b + 2];
        if o2.less_than(&x2) {
            o2 = x2;
            proof {
                w2 = b + 2;
            }
        }
        let x3 = values[b + 3];
        if o3.less_than(&x3) {
            o3 = x3;
            proof {
                w3 = b + 3;
            }
        }
        c = c + 1;
    }
    let mut out = o0;
    let ghost mut w: int = w0;
    if out.less_than(&o1) {
        out = o1;
        proof {
            w = w1;
        }
    }
    if out.less_than(&o2) {
        out = o2;
        proof {
            w = w2;
        }
    }
    if out.less_than(&o3) {
        out = o3;
        proof {
            w = w3;
        }
    }
    let mut i = 4 * full;
    while i < n
        invariant
            n == values@.len(),
            4 * full <= i <= n,
            0 <= w < n && values@[w] == out,
            forall|j: int| 0 <= j < i ==> #[trigger] values@[j].as_int() <= out.as_int(),
        decreases n - i,
    {
        let x = values[i];
        if out.less_than(&x) {
            out = x;
            proof {
                w = i as int;
            }
        }
        i = i + 1;
    }
    proof {
        assert(values@.contains(out)) by {
            assert(values@[w] == out);
        }
    }
    Some(out)
}

/// The least and the greatest value in one pass, or `None` for an empty
/// slice.
pub fn number_minmax_value<T: Number>(values: &[T]) -> (r: Option<(T, T)>)
    ensures
        r is None <==> values@.len() == 0,
        r matches Some(p) ==> is_least(values@, p.0) && is_greatest(values@, p.1),
{
    let n = values.len();
    if n == 0 {
        return None;
    }
    let full = n / 4;
    let mut lo0 = values[0];
    let mut lo1 = values[0];
    let mut lo2 = values[0];
    let mut lo3 = values[0];
    let mut hi0 = values[0];
    let mut hi1 = values[0];
    let mut hi2 = values[0];
    let mut hi3 = values[0];
    // positions where each running value was read
    let ghost mut wl: Seq<int> = seq![0int, 0int, 0int, 0int];
    let ghost mut wh: Seq<int> = seq![0int, 0int, 0int, 0int];
    let mut c: usize = 0;
    while c < full
        invariant
            n == values@.len(),
            n > 0,
            full == n / 4,
            c <= full,
            wl.len() == 4,
            wh.len() == 4,
            forall|l: int| 0 <= l < 4 ==> 0 <= #[trigger] wl[l] < n,
            forall|l: int| 0 <= l < 4 ==> 0 <= #[trigger] wh[l] < n,
            values@[wl[0]] == lo0 && values@[wl[1]] == lo1 && values@[wl[2]] == lo2
                && values@[wl[3]] == lo3,
            values@[wh[0]] == hi0 && values@[wh[1]] == hi1 && values@[wh[2]] == hi2
                && values@[wh[3]] == hi3,
            forall|i: int|
                0 <= i < 4 * c && i % 4 == 0 ==> lo0.as_int() <= #[trigger] values@[i].as_int()
                    && values@[i].as_int() <= hi0.as_int(),
            forall|i: int|
                0 <= i < 4 * c && i % 4 == 1 ==> lo1.as_int() <= #[trigger] values@[i].as_int()
                    && values@[i].as_int() <= hi1.as_int(),
            forall|i: int|
                0 <= i < 4 * c && i % 4 == 2 ==> lo2.as_int() <= #[trigger] values@[i].as_int()
                    && values@[i].as_int() <= hi2.as_int(),
            forall|i: int|
                0 <= i < 4 * c && i % 4 == 3 ==> lo3.as_int() <= #[trigger] values@[i].as_int()
                    && values@[i].as_int() <= hi3.as_int(),
        decreases full - c,
    {
        let b = 4 * c;
        let x0 = values[b];
        if x0.less_than(&lo0) {
            lo0 = x0;
            proof {
                wl = wl.update(0, b as int);
            }
        }
        if hi0.less_than(&x0) {
            hi0 = x0;
            proof {
                wh = wh.update(0, b as int);
            }
        }
        let x1 = values[b + 1];
        if x1.less_than(&lo1) {
            lo1 = x1;
            proof {
                wl = wl.update(1, b + 1);
            }
        }
        if hi1.less_than(&x1) {
            hi1 = x1;
            proof {
                wh = wh.update(1, b + 1);
            }
        }
        let x2 = values[b + 2];
        if x2.less_than(&lo2) {
            lo2 = x2;
            proof {
                wl = wl.update(2, b + 2);
            }
        }
        if hi2.less_than(&x2) {
            hi2 = x2;
            proof {
                wh = wh.update(2, b + 2);
            }
        }
        let x3 = values[b + 3];
        if x3.less_than(&lo3) {
            lo3 = x3;
            proof {
                wl = wl.update(3, b + 3);
            }
        }
        if hi3.less_than(&x3) {
            hi3 = x3;
            proof {
                wh = wh.update(3, b + 3);
            }
        }
        c = c + 1;
    }
    let mut lo = lo0;
    let mut hi = hi0;
    let ghost mut u: int = wl[0];
    let ghost mut v: int = wh[0];
    if lo1.less_than(&lo) {
        lo = lo1;
        proof {
            u = wl[1];
        }
    }
    if lo2.less_than(&lo) {
        lo = lo2;
        proof {
            u = wl[2];
        }
    }
    if lo3.less_than(&lo) {
        lo = lo3;
        proof {
            u = wl[3];
        }
    }
    if hi.less_than(&hi1) {
        hi = hi1;
        proof {
            v = wh[1];
        }
    }
    if hi.less_than(&hi2) {
        hi = hi2;
        proof {
            v = wh[2];
        }
    }
    if hi.less_than(&hi3) {
        hi = hi3;
        proof {
            v = wh[3];
        }
    }
    let mut i = 4 * full;
    while i < n
        invariant
            n == values@.len(),
            4 * full <= i <= n,
            0 <= u < n && values@[u] == lo,
            0 <= v < n && values@[v] == hi,
            forall|j: int|
                0 <= j < i ==> lo.as_int() <= #[trigger] values@[j].as_int() && values@[j].as_int()
                    <= hi.as_int(),
        decreases n - i,
    {
        let x = values[i];
        if x.less_than(&lo) {
            lo = x;
            proof {
                u = i as int;
            }
        }
        if hi.less_than(&x) {
            hi = x;
            proof {
                v = i as int;
            }
        }
        i = i + 1;
    }
    proof {
        assert(values@.contains(lo)) by {
            assert(values@[u] == lo);
        }
        assert(values@.contains(hi)) by {
            assert(values@[v] == hi);
        }
    }
    Some((lo, hi))
}

/// The fused scan gives what the two separate scans give: the least and the
/// greatest element of a sequence are each one element only.
pub proof fn lemma_minmax_is_min_and_max<T: Number>(s: Seq<T>, lo: T, hi: T, least: T, greatest: T)
    requires
        is_least(s, lo),
        is_greatest(s, hi),
        is_least(s, least),
        is_greatest(s, greatest),
    ensures
        lo == least,
        hi == greatest,
{
    let a = choose|i: int| 0 <= i < s.len() && s[i] == lo;
    let b = choose|i: int| 0 <= i < s.len() && s[i] == least;
    assert(lo.as_int() <= s[b].as_int() && least.as_int() <= s[a].as_int());
    T::as_int_injective(lo, least);
    let c = choose|i: int| 0 <= i < s.len() && s[i] == hi;
    let d = choose|i: int| 0 <= i < s.len() && s[i] == greatest;
    assert(s[d].as_int() <= hi.as_int() && s[c].as_int() <= greatest.as_int());
    T::as_int_injective(hi, greatest);
}

/// Lower value-selecting median operating in place on `buf`: the element of
/// rank `(len - 1) / 2`, or `None` for an empty buffer. `buf` is reordered.
pub fn number_lmedian_value_in_place<T: Number>(buf: &mut [T]) -> (r: Option<T>)
    ensures
        final(buf)@.len() == old(buf)@.len(),
        final(buf)@.to_multiset() == old(buf)@.to_multiset(),
        r is None <==> old(buf)@.len() == 0,
        r matches Some(x) ==> is_rank(old(buf)@, lower_median_rank(old(buf)@.len() as int), x),
{
    let n = buf.len();
    if n == 0 {
        return None;
    }
    let idx = (n - 1) / 2;
    select_nth(buf, idx);
    let value = buf[idx];
    proof {
        lemma_pivot_rank(buf@, idx as int);
        lemma_rank_permutation(old(buf)@, buf@, idx as int, value);
    }
    Some(value)
}

/// The two middle elements of `buf`, operating in place (`buf` is
/// reordered): the elements of ranks `(len - 1) / 2` and `len / 2`, which
/// are one element for an odd length. `None` for an empty buffer.
///
/// The median of the buffer is their mean.
pub fn number_median_pair_in_place<T: Number>(buf: &mut [T]) -> (r: Option<(T, T)>)
    ensures
        final(buf)@.len() == old(buf)@.len(),
        final(buf)@.to_multiset() == old(buf)@.to_multiset(),
        r is None <==> old(buf)@.len() == 0,
        r matches Some(p) ==> is_rank(old(buf)@, (old(buf)@.len() - 1) / 2, p.0) && is_rank(
            old(buf)@,
            (old(buf)@.len() / 2) as int,
            p.1,
        ),
{
    let n = buf.len();
    if n == 0 {
        return None;
    }
    let mid = n / 2;
    select_nth(buf, mid);
    let upper = buf[mid];
    proof {
        lemma_pivot_rank(buf@, mid as int);
        lemma_rank_permutation(old(buf)@, buf@, mid as int, upper);
    }
    if n % 2 == 1 {
        return Some((upper, upper));
    }
    let mut lower = buf[0];
    let ghost mut w: int = 0;
    let mut j: usize = 1;
    while j < mid
        invariant
            n == buf@.len(),
            0 < mid < n,
            1 <= j <= mid,
            0 <= w < j,
            buf@[w] == lower,
            forall|i: int| 0 <= i < j ==> #[trigger] buf@[i].as_int() <= lower.as_int(),
        decreases mid - j,
    {
        let x = buf[j];
        if lower.less_than(&x) {
            lower = x;
            proof {
                w = j as int;
            }
        }
        j = j + 1;
    }
    proof {
        lemma_lower_neighbour_rank(buf@, mid as int, w);
        lemma_rank_permutation(old(buf)@, buf@, mid - 1, lower);
    }
    Some((lower, upper))
}

/// The two middle elements are in order, and are one element for an odd
/// length.
pub proof fn lemma_median_pair_ordered<T: Number>(s: Seq<T>, lower: T, upper: T)
    requires
        s.len() > 0,
        is_rank(s, (s.len() - 1) / 2, lower),
        is_rank(s, (s.len() / 2) as int, upper),
    ensures
        lower.as_int() <= upper.as_int(),
        s.len() % 2 == 1 ==> lower == upper,
{
    lemma_ranks_ordered(s, (s.len() - 1) / 2, (s.len() / 2) as int, lower, upper);
    if s.len() % 2 == 1 {
        lemma_rank_unique(s, (s.len() - 1) / 2, lower, upper);
    }
}

// ---------------------------------------------------------------------------
// several order statistics at once
// ---------------------------------------------------------------------------

/// `⌊log2(n)⌋` for `n >= 1`.
pub open spec fn floor_log2(n: nat) -> nat
    decreases n,
{
    if n <= 1 {
        0
    } else {
        1 + floor_log2(n / 2)
    }
}

proof fn lemma_floor_log2_below(n: nat)
    requires
        n >= 1,
    ensures
        floor_log2(n) < n,
    decreases n,
{
    if n > 1 {
        lemma_floor_log2_below(n / 2);
    }
}

/// `⌊log2(n)⌋` is the exponent of the greatest power of two at or below
/// `n`: `2^b <= n < 2^(b + 1)`.
pub proof fn lemma_floor_log2_meaning(n: nat)
    requires
        n >= 1,
    ensures
        pow2(floor_log2(n)) <= n < pow2(floor_log2(n) + 1),
    decreases n,
{
    if n <= 1 {
        lemma2_to64();
    } else {
        lemma_floor_log2_meaning(n / 2);
        let b = floor_log2(n / 2);
        lemma_pow2_unfold(b + 1);
        lemma_pow2_unfold(b + 2);
        assert(floor_log2(n) == b + 1);
    }
}

/// How many order statistics of `count` elements are taken one by one by
/// selection; more than that and the whole buffer is sorted instead:
/// `⌊log2(count)⌋`.
pub fn selection_rank_budget(count: usize) -> (b: usize)
    requires
        count > 0,
    ensures
        b == floor_log2(count as nat),
{
    let mut c = count;
    let mut b: usize = 0;
    proof {
        lemma_floor_log2_below(count as nat);
    }
    while c > 1
        invariant
            1 <= c <= count,
            b + floor_log2(c as nat) == floor_log2(count as nat),
            floor_log2(count as nat) < count,
        decreases c,
    {
        c = c / 2;
        b = b + 1;
    }
    b
}

/// Whether `s` is strictly increasing.
pub open spec fn strictly_increasing(s: Seq<usize>) -> bool {
    forall|i: int, j: int| 0 <= i < j < s.len() ==> #[trigger] s[i] < #[trigger] s[j]
}

/// The first position of the strictly increasing `s` whose value is at least
/// `r` (the length of `s` when there is none).
fn lower_bound(s: &Vec<usize>, r: usize) -> (p: usize)
    requires
        strictly_increasing(s@),
    ensures
        p <= s@.len(),
        forall|i: int| 0 <= i < p ==> #[trigger] s@[i] < r,
        forall|i: int| p <= i < s@.len() ==> r <= #[trigger] s@[i],
{
    let mut lo: usize = 0;
    let mut hi: usize = s.len();
    while lo < hi
        invariant
            strictly_increasing(s@),
            lo <= hi <= s@.len(),
            forall|i: int| 0 <= i < lo ==> #[trigger] s@[i] < r,
            forall|i: int| hi <= i < s@.len() ==> r <= #[trigger] s@[i],
        decreases hi - lo,
    {
        let mid = lo + (hi - lo) / 2;
        if s[mid] < r {
            lo = mid + 1;
        } else {
            hi = mid;
        }
    }
    lo
}

/// The values of `ranks` in increasing order, each once.
fn sorted_distinct(ranks: &[usize]) -> (out: Vec<usize>)
    ensures
        strictly_increasing(out@),
        forall|i: int| 0 <= i < ranks@.len() ==> out@.contains(#[trigger] ranks@[i]),
        forall|i: int| 0 <= i < out@.len() ==> ranks@.contains(#[trigger] out@[i]),
{
    let mut out: Vec<usize> = Vec::new();
    let mut t: usize = 0;
    while t < ranks.len()
        invariant
            t <= ranks@.len(),
            strictly_increasing(out@),
            forall|i: int| 0 <= i < t ==> out@.contains(#[trigger] ranks@[i]),
            forall|i: int| 0 <= i < out@.len() ==> ranks@.contains(#[trigger] out@[i]),
        decreases ranks@.len() - t,
    {
        let r = ranks[t];
        let p = lower_bound(&out, r);
        if p < out.len() && out[p] == r {
            proof {
                assert(out@.contains(ranks@[t as int]));
            }
        } else {
            let ghost before = out@;
            out.insert(p, r);
            proof {
                assert(out@ == before.insert(p as int, r));
                assert forall|i: int, j: int| 0 <= i < j < out@.len() implies #[trigger] out@[i]
                    < #[trigger] out@[j] by {
                    if j < p {
                    } else if j == p {
                        assert(out@[i] == before[i]);
                    } else if i < p {
                        assert(out@[j] == before[j - 1]);
                    } else if i == p {
                        assert(out@[j] == before[j - 1]);
                    } else {
                        assert(out@[i] == before[i - 1]);
                        assert(out@[j] == before[j - 1]);
                    }
                }
                assert forall|i: int| 0 <= i < t + 1 implies out@.contains(#[trigger] ranks@[i]) by {
                    if i == t {
                        assert(out@[p as int] == r);
                    } else {
                        let q = choose|q: int| 0 <= q < before.len() && before[q] == ranks@[i];
                        if q < p {
                            assert(out@[q] == before[q]);
                        } else {
                            assert(out@[q + 1] == before[q]);
                        }
                    }
                }
                assert forall|i: int| 0 <= i < out@.len() implies ranks@.contains(
                    #[trigger] out@[i],
                ) by {
                    if i == p {
                        assert(ranks@[t as int] == r);
                    } else if i < p {
                        assert(out@[i] == before[i]);
                    } else {
                        assert(out@[i] == before[i - 1]);
                    }
                }
            }
        }
        t = t + 1;
    }
    out
}

/// The elements of the given ranks of `buf`, operating in place (`buf` is
/// reordered): `out[i]` is the element of rank `ranks[i]`.
///
/// The distinct ranks are taken in increasing order, each by a selection on
/// the part of `buf` not yet fixed, while there are at most
/// [`selection_rank_budget`] of them; with more, the whole buffer is sorted.
pub fn number_rank_values_in_place<T: Number>(buf: &mut [T], ranks: &[usize]) -> (out: Vec<T>)
    requires
        forall|i: int| 0 <= i < ranks@.len() ==> #[trigger] ranks@[i] < old(buf)@.len(),
    ensures
        final(buf)@.len() == old(buf)@.len(),
        final(buf)@.to_multiset() == old(buf)@.to_multiset(),
        out@.len() == ranks@.len(),
        forall|i: int|
            0 <= i < ranks@.len() ==> is_rank(old(buf)@, ranks@[i] as int, #[trigger] out@[i]),
{
    let n = buf.len();
    let mut out: Vec<T> = Vec::new();
    if n == 0 {
        proof {
            if ranks@.len() > 0 {
                assert(ranks@[0] < n);
            }
        }
        return out;
    }
    let needed = sorted_distinct(ranks);
    proof {
        assert forall|q: int| 0 <= q < needed@.len() implies #[trigger] needed@[q] < n by {
            let i = choose|i: int| 0 <= i < ranks@.len() && ranks@[i] == needed@[q];
        }
    }
    if needed.len() <= selection_rank_budget(n) {
        let mut selected: Vec<T> = Vec::new();
        let mut start: usize = 0;
        let mut t: usize = 0;
        while t < needed.len()
            invariant
                n == buf@.len(),
                n == old(buf)@.len(),
                buf@.to_multiset() == old(buf)@.to_multiset(),
                strictly_increasing(needed@),
                forall|q: int| 0 <= q < needed@.len() ==> #[trigger] needed@[q] < n,
                t <= needed@.len(),
                selected@.len() == t,
                start <= n,
                t == 0 ==> start == 0,
                t > 0 ==> start == needed@[t - 1] + 1,
                ordered_split(buf@, start as int),
                forall|q: int|
                    0 <= q < t ==> is_rank(old(buf)@, needed@[q] as int, #[trigger] selected@[q]),
            decreases needed@.len() - t,
        {
            let idx = needed[t];
            proof {
                if t > 0 {
                    assert(needed@[t - 1] < needed@[t as int]);
                }
            }
            let ghost before = buf@;
            select_nth_from(buf, start, idx - start);
            proof {
                lemma_reorder_suffix(before, buf@, start);
                lemma_select_step(buf@, start, idx);
                lemma_rank_permutation(old(buf)@, buf@, idx as int, buf@[idx as int]);
            }
            let v = buf[idx];
            selected.push(v);
            start = idx + 1;
            t = t + 1;
        }
        let mut i: usize = 0;
        while i < ranks.len()
            invariant
                i <= ranks@.len(),
                out@.len() == i,
                strictly_increasing(needed@),
                selected@.len() == needed@.len(),
                forall|q: int|
                    0 <= q < needed@.len() ==> is_rank(
                        old(buf)@,
                        needed@[q] as int,
                        #[trigger] selected@[q],
                    ),
                forall|j: int| 0 <= j < ranks@.len() ==> needed@.contains(#[trigger] ranks@[j]),
                forall|j: int|
                    0 <= j < i ==> is_rank(old(buf)@, ranks@[j] as int, #[trigger] out@[j]),
            decreases ranks@.len() - i,
        {
            let r = ranks[i];
            let p = lower_bound(&needed, r);
            proof {
                assert(needed@.contains(ranks@[i as int]));
                let q = choose|q: int| 0 <= q < needed@.len() && needed@[q] == r;
                if q < p {
                    assert(needed@[q] < r);
                }
                if q > p {
                    assert(needed@[p as int] < needed@[q]);
                    assert(r <= needed@[p as int]);
                }
                assert(q == p);
            }
            out.push(selected[p]);
            i = i + 1;
        }
    } else {
        let ghost before = buf@;
        sort_numbers(buf);
        let mut i: usize = 0;
        while i < ranks.len()
            invariant
                i <= ranks@.len(),
                out@.len() == i,
                n == buf@.len(),
                buf@.to_multiset() == old(buf)@.to_multiset(),
                forall|a: int, b: int|
                    0 <= a <= b < buf@.len() ==> #[trigger] buf@[a].as_int()
                        <= #[trigger] buf@[b].as_int(),
                forall|j: int| 0 <= j < ranks@.len() ==> #[trigger] ranks@[j] < n,
                forall|j: int|
                    0 <= j < i ==> is_rank(old(buf)@, ranks@[j] as int, #[trigger] out@[j]),
            decreases ranks@.len() - i,
        {
            let r = ranks[i];
            proof {
                assert(ranks@[i as int] < n);
                lemma_rank_is_sorted_position(old(buf)@, buf@, r as int);
            }
            out.push(buf[r]);
            i = i + 1;
        }
    }
    out
}

// ---------------------------------------------------------------------------
// weighted averages
// ---------------------------------------------------------------------------

/// Whether a weighted average is refused ("weights sum to zero"): some value
/// was kept but the kept weights sum to zero, or no value was kept under a
/// policy that keeps every value (an empty input).
///
/// `count` is the number of values kept and `zero_weight_sum` whether their
/// weights sum to zero.
pub fn weights_refused(count: usize, zero_weight_sum: bool, policy: ScanPolicy) -> (r: bool)
    ensures
        r == ((count > 0 && zero_weight_sum) || (count == 0 && (policy == ScanPolicy::AllValues
            || policy == ScanPolicy::AllFinite))),
{
    let zero_weight = count > 0 && zero_weight_sum;
    let empty_strict = count == 0 && matches!(policy, ScanPolicy::AllValues | ScanPolicy::AllFinite);
    zero_weight || empty_strict
}

} // verus!
