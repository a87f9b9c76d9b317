//! Non-floating numeric elements (booleans and integers) and what their order
//! statistics are: the element of rank `k` of a sequence is the one with at
//! most `k` elements below it and more than `k` elements at or below it.

use vstd::multiset::Multiset;
use vstd::prelude::*;

verus! {

/// Non-floating numeric element that can be reduced without NaN handling.
///
/// Each element stands for an integer (`false` = 0, `true` = 1), distinct
/// elements for distinct integers, and elements are ordered by it.
pub trait Number: Copy {
    /// The integer that the element stands for.
    spec fn as_int(self) -> int;

    /// Distinct elements stand for distinct integers.
    proof fn as_int_injective(a: Self, b: Self)
        ensures
            a.as_int() == b.as_int() ==> a == b,
    ;

    /// Whether `self` orders strictly before `other`.
    fn less_than(&self, other: &Self) -> (r: bool)
        ensures
            r == (self.as_int() < other.as_int()),
    ;
}

impl Number for bool {
    open spec fn as_int(self) -> int {
        if self {
            1
        } else {
            0
        }
    }

    proof fn as_int_injective(a: Self, b: Self) {
    }

    fn less_than(&self, other: &Self) -> (r: bool) {
        !*self && *other
    }
}

impl Number for i8 {
    open spec fn as_int(self) -> int {
        self as int
    }

    proof fn as_int_injective(a: Self, b: Self) {
    }

    fn less_than(&self, other: &Self) -> (r: bool) {
        *self < *other
    }
}

impl Number for u8 {
    open spec fn as_int(self) -> int {
        self as int
    }

    proof fn as_int_injective(a: Self, b: Self) {
    }

    fn less_than(&self, other: &Self) -> (r: bool) {
        *self < *other
    }
}

impl Number for i16 {
    open spec fn as_int(self) -> int {
        self as int
    }

    proof fn as_int_injective(a: Self, b: Self) {
    }

    fn less_than(&self, other: &Self) -> (r: bool) {
        *self < *other
    }
}

impl Number for u16 {
    open spec fn as_int(self) -> int {
        self as int
    }

    proof fn as_int_injective(a: Self, b: Self) {
    }

    fn less_than(&self, other: &Self) -> (r: bool) {
        *self < *other
    }
}

impl Number for i32 {
    open spec fn as_int(self) -> int {
        self as int
    }

    proof fn as_int_injective(a: Self, b: Self) {
    }

    fn less_than(&self, other: &Self) -> (r: bool) {
        *self < *other
    }
}

impl Number for u32 {
    open spec fn as_int(self) -> int {
        self as int
    }

    proof fn as_int_injective(a: Self, b: Self) {
    }

    fn less_than(&self, other: &Self) -> (r: bool) {
        *self < *other
    }
}

impl Number for i64 {
    open spec fn as_int(self) -> int {
        self as int
    }

    proof fn as_int_injective(a: Self, b: Self) {
    }

    fn less_than(&self, other: &Self) -> (r: bool) {
        *self < *other
    }
}

impl Number for u64 {
    open spec fn as_int(self) -> int {
        self as int
    }

    proof fn as_int_injective(a: Self, b: Self) {
    }

    fn less_than(&self, other: &Self) -> (r: bool) {
        *self < *other
    }
}

// ---------------------------------------------------------------------------
// counting
// ---------------------------------------------------------------------------

/// Number of elements of `s` that satisfy `p`.
pub open spec fn count_where<T>(s: Seq<T>, p: spec_fn(T) -> bool) -> nat
    decreases s.len(),
{
    if s.len() == 0 {
        0
    } else {
        count_where(s.drop_last(), p) + if p(s.last()) {
            1nat
        } else {
            0nat
        }
    }
}

/// Holds of the elements strictly below `v`.
pub open spec fn below<T: Number>(v: int) -> spec_fn(T) -> bool {
    |x: T| x.as_int() < v
}

/// Holds of the elements at or below `v`.
pub open spec fn at_most<T: Number>(v: int) -> spec_fn(T) -> bool {
    |x: T| x.as_int() <= v
}

/// `x` is an element of `s` of rank `k` (counted from 0) in increasing order:
/// at most `k` elements of `s` lie strictly below it and more than `k` lie at
/// or below it.
pub open spec fn is_rank<T: Number>(s: Seq<T>, k: int, x: T) -> bool {
    &&& s.contains(x)
    &&& count_where(s, below::<T>(x.as_int())) <= k
    &&& k < count_where(s, at_most::<T>(x.as_int()))
}

/// `x` is an element of `s` and no element of `s` is below it.
pub open spec fn is_least<T: Number>(s: Seq<T>, x: T) -> bool {
    &&& s.contains(x)
    &&& forall|i: int| 0 <= i < s.len() ==> x.as_int() <= #[trigger] s[i].as_int()
}

/// `x` is an element of `s` and no element of `s` is above it.
pub open spec fn is_greatest<T: Number>(s: Seq<T>, x: T) -> bool {
    &&& s.contains(x)
    &&& forall|i: int| 0 <= i < s.len() ==> #[trigger] s[i].as_int() <= x.as_int()
}

/// No element of `s` before position `k` is above `s[k]` and none after it
/// is below it.
pub open spec fn partitioned_at<T: Number>(s: Seq<T>, k: usize) -> bool {
    &&& k < s.len()
    &&& forall|i: int| 0 <= i < k ==> #[trigger] s[i].as_int() <= s[k as int].as_int()
    &&& forall|i: int| k < i < s.len() ==> s[k as int].as_int() <= #[trigger] s[i].as_int()
}

/// Rank of the lower median of `len` elements.
pub open spec fn lower_median_rank(len: int) -> int {
    (len - 1) / 2
}

/// The count over a concatenation adds up.
pub proof fn lemma_count_add<T>(a: Seq<T>, b: Seq<T>, p: spec_fn(T) -> bool)
    ensures
        count_where(a + b, p) == count_where(a, p) + count_where(b, p),
    decreases b.len(),
{
    if b.len() == 0 {
        assert(a + b =~= a);
    } else {
        lemma_count_add(a, b.drop_last(), p);
        assert((a + b).drop_last() =~= a + b.drop_last());
        assert((a + b).last() == b.last());
    }
}

/// At most every element is counted.
pub proof fn lemma_count_le_len<T>(s: Seq<T>, p: spec_fn(T) -> bool)
    ensures
        count_where(s, p) <= s.len(),
    decreases s.len(),
{
    if s.len() > 0 {
        lemma_count_le_len(s.drop_last(), p);
    }
}

/// When every element satisfies `p`, every element is counted.
pub proof fn lemma_count_all<T>(s: Seq<T>, p: spec_fn(T) -> bool)
    requires
        forall|i: int| 0 <= i < s.len() ==> p(#[trigger] s[i]),
    ensures
        count_where(s, p) == s.len(),
    decreases s.len(),
{
    if s.len() > 0 {
        assert(p(s[s.len() - 1]));
        lemma_count_all(s.drop_last(), p);
    }
}

/// When no element satisfies `p`, nothing is counted.
pub proof fn lemma_count_none<T>(s: Seq<T>, p: spec_fn(T) -> bool)
    requires
        forall|i: int| 0 <= i < s.len() ==> !p(#[trigger] s[i]),
    ensures
        count_where(s, p) == 0,
    decreases s.len(),
{
    if s.len() > 0 {
        assert(!p(s[s.len() - 1]));
        lemma_count_none(s.drop_last(), p);
    }
}

/// A weaker predicate counts no fewer elements.
pub proof fn lemma_count_monotone<T>(s: Seq<T>, p: spec_fn(T) -> bool, q: spec_fn(T) -> bool)
    requires
        forall|x: T| #[trigger] p(x) ==> q(x),
    ensures
        count_where(s, p) <= count_where(s, q),
    decreases s.len(),
{
    if s.len() > 0 {
        lemma_count_monotone(s.drop_last(), p, q);
    }
}

/// The count is the size of the filtered multiset.
pub proof fn lemma_count_multiset<T>(s: Seq<T>, p: spec_fn(T) -> bool)
    ensures
        count_where(s, p) == s.to_multiset().filter(p).len(),
    decreases s.len(),
{
    broadcast use vstd::multiset::group_multiset_axioms;
    broadcast use vstd::seq_lib::group_to_multiset_ensures;

    if s.len() == 0 {
        assert(s.to_multiset() =~= Multiset::<T>::empty());
        assert(s.to_multiset().filter(p) =~= Multiset::<T>::empty());
    } else {
        let init = s.drop_last();
        let x = s.last();
        lemma_count_multiset(init, p);
        assert(init.push(x) =~= s);
        assert(s.to_multiset() =~= init.to_multiset().insert(x));
        let m = init.to_multiset();
        if p(x) {
            assert(m.insert(x).filter(p) =~= m.filter(p).insert(x));
        } else {
            assert(m.insert(x).filter(p) =~= m.filter(p));
        }
    }
}

/// A reordering keeps every count.
pub proof fn lemma_count_permutation<T>(s: Seq<T>, t: Seq<T>, p: spec_fn(T) -> bool)
    requires
        s.to_multiset() == t.to_multiset(),
    ensures
        count_where(s, p) == count_where(t, p),
{
    lemma_count_multiset(s, p);
    lemma_count_multiset(t, p);
}

/// A reordering keeps membership.
pub proof fn lemma_contains_permutation<T>(s: Seq<T>, t: Seq<T>, x: T)
    requires
        s.to_multiset() == t.to_multiset(),
    ensures
        s.contains(x) == t.contains(x),
{
    broadcast use vstd::seq_lib::group_to_multiset_ensures;

    assert(s.contains(x) <==> s.to_multiset().count(x) > 0);
    assert(t.contains(x) <==> t.to_multiset().count(x) > 0);
}

/// A reordering keeps every rank.
pub proof fn lemma_rank_permutation<T: Number>(s: Seq<T>, t: Seq<T>, k: int, x: T)
    requires
        s.to_multiset() == t.to_multiset(),
    ensures
        is_rank(s, k, x) == is_rank(t, k, x),
{
    lemma_contains_permutation(s, t, x);
    lemma_count_permutation(s, t, below::<T>(x.as_int()));
    lemma_count_permutation(s, t, at_most::<T>(x.as_int()));
}

/// The element in position `k` of a sequence partitioned around it (nothing
/// above it before, nothing below it after) has rank `k`.
pub proof fn lemma_pivot_rank<T: Number>(s: Seq<T>, k: int)
    requires
        0 <= k < s.len(),
        forall|i: int| 0 <= i < k ==> #[trigger] s[i].as_int() <= s[k].as_int(),
        forall|i: int| k < i < s.len() ==> s[k].as_int() <= #[trigger] s[i].as_int(),
    ensures
        is_rank(s, k, s[k]),
{
    let v = s[k].as_int();
    let lo = s.take(k);
    let hi = s.skip(k);
    assert(lo + hi =~= s);
    lemma_count_add(lo, hi, below::<T>(v));
    lemma_count_le_len(lo, below::<T>(v));
    assert forall|i: int| 0 <= i < hi.len() implies !(below::<T>(v))(#[trigger] hi[i]) by {
        assert(hi[i] == s[k + i]);
    }
    lemma_count_none(hi, below::<T>(v));
    let lo1 = s.take(k + 1);
    let hi1 = s.skip(k + 1);
    assert(lo1 + hi1 =~= s);
    lemma_count_add(lo1, hi1, at_most::<T>(v));
    assert forall|i: int| 0 <= i < lo1.len() implies (at_most::<T>(v))(#[trigger] lo1[i]) by {
        assert(lo1[i] == s[i]);
    }
    lemma_count_all(lo1, at_most::<T>(v));
    assert(s.contains(s[k]));
}

/// In a sequence partitioned around position `k > 0`, the greatest element
/// before position `k` has rank `k - 1`.
pub proof fn lemma_lower_neighbour_rank<T: Number>(s: Seq<T>, k: int, j: int)
    requires
        0 < k < s.len(),
        0 <= j < k,
        forall|i: int| 0 <= i < k ==> #[trigger] s[i].as_int() <= s[k].as_int(),
        forall|i: int| k < i < s.len() ==> s[k].as_int() <= #[trigger] s[i].as_int(),
        forall|i: int| 0 <= i < k ==> #[trigger] s[i].as_int() <= s[j].as_int(),
    ensures
        is_rank(s, k - 1, s[j]),
{
    let v = s[j].as_int();
    let front = s.take(j);
    let mid = s.subrange(j, j + 1);
    let back = s.subrange(j + 1, k);
    let tail = s.skip(k);
    assert(front + mid + back + tail =~= s);
    lemma_count_add(front + mid + back, tail, below::<T>(v));
    lemma_count_add(front + mid, back, below::<T>(v));
    lemma_count_add(front, mid, below::<T>(v));
    lemma_count_le_len(front, below::<T>(v));
    lemma_count_le_len(back, below::<T>(v));
    assert forall|i: int| 0 <= i < mid.len() implies !(below::<T>(v))(#[trigger] mid[i]) by {
        assert(mid[i] == s[j]);
    }
    lemma_count_none(mid, below::<T>(v));
    assert forall|i: int| 0 <= i < tail.len() implies !(below::<T>(v))(#[trigger] tail[i]) by {
        assert(tail[i] == s[k + i]);
    }
    lemma_count_none(tail, below::<T>(v));
    let lo = s.take(k);
    let hi = s.skip(k);
    assert(lo + hi =~= s);
    lemma_count_add(lo, hi, at_most::<T>(v));
    assert forall|i: int| 0 <= i < lo.len() implies (at_most::<T>(v))(#[trigger] lo[i]) by {
        assert(lo[i] == s[i]);
    }
    lemma_count_all(lo, at_most::<T>(v));
    assert(s.contains(s[j]));
}

/// Each rank of a sequence is held by one element only.
pub proof fn lemma_rank_unique<T: Number>(s: Seq<T>, k: int, x: T, y: T)
    requires
        is_rank(s, k, x),
        is_rank(s, k, y),
    ensures
        x == y,
{
    if x.as_int() < y.as_int() {
        lemma_count_monotone(s, at_most::<T>(x.as_int()), below::<T>(y.as_int()));
    } else if y.as_int() < x.as_int() {
        lemma_count_monotone(s, at_most::<T>(y.as_int()), below::<T>(x.as_int()));
    }
    T::as_int_injective(x, y);
}

/// The count over a sequence, split at position `i`.
pub proof fn lemma_count_split_at<T>(s: Seq<T>, i: int, p: spec_fn(T) -> bool)
    requires
        0 <= i < s.len(),
    ensures
        count_where(s, p) == count_where(s.take(i), p) + (if p(s[i]) {
            1int
        } else {
            0int
        }) + count_where(s.skip(i + 1), p),
{
    let one = s.subrange(i, i + 1);
    assert(s.take(i) + one + s.skip(i + 1) =~= s);
    lemma_count_add(s.take(i) + one, s.skip(i + 1), p);
    lemma_count_add(s.take(i), one, p);
    assert(one.len() == 1);
    assert(one.drop_last() =~= Seq::<T>::empty());
    assert(count_where(one.drop_last(), p) == 0);
    assert(one.last() == s[i]);
    assert(count_where(one, p) == if p(s[i]) {
        1nat
    } else {
        0nat
    });
}

/// The least element is the element of rank 0, and the greatest that of the
/// last rank.
pub proof fn lemma_extremes_are_ranks<T: Number>(s: Seq<T>, x: T)
    requires
        s.len() > 0,
    ensures
        is_least(s, x) == is_rank(s, 0, x),
        is_greatest(s, x) == is_rank(s, s.len() - 1, x),
{
    let v = x.as_int();
    if is_least(s, x) {
        lemma_count_none(s, below::<T>(v));
        let i = choose|i: int| 0 <= i < s.len() && s[i] == x;
        lemma_count_split_at(s, i, at_most::<T>(v));
    }
    if is_rank(s, 0, x) {
        assert forall|i: int| 0 <= i < s.len() implies x.as_int() <= #[trigger] s[i].as_int() by {
            if s[i].as_int() < v {
                lemma_count_split_at(s, i, below::<T>(v));
            }
        }
    }
    if is_greatest(s, x) {
        lemma_count_all(s, at_most::<T>(v));
        let i = choose|i: int| 0 <= i < s.len() && s[i] == x;
        lemma_count_split_at(s, i, below::<T>(v));
        lemma_count_le_len(s.take(i), below::<T>(v));
        lemma_count_le_len(s.skip(i + 1), below::<T>(v));
    }
    if is_rank(s, s.len() - 1, x) {
        assert forall|i: int| 0 <= i < s.len() implies #[trigger] s[i].as_int() <= x.as_int() by {
            if v < s[i].as_int() {
                lemma_count_split_at(s, i, at_most::<T>(v));
                lemma_count_le_len(s.take(i), at_most::<T>(v));
                lemma_count_le_len(s.skip(i + 1), at_most::<T>(v));
            }
        }
    }
}

/// A lower rank never holds a greater element.
pub proof fn lemma_ranks_ordered<T: Number>(s: Seq<T>, k1: int, k2: int, x: T, y: T)
    requires
        k1 <= k2,
        is_rank(s, k1, x),
        is_rank(s, k2, y),
    ensures
        x.as_int() <= y.as_int(),
{
    if y.as_int() < x.as_int() {
        lemma_count_monotone(s, at_most::<T>(y.as_int()), below::<T>(x.as_int()));
    }
}

/// The element of rank `k` is the one that sorting puts at position `k`: in
/// every increasing reordering `t` of `s`, `t[k]` has rank `k` in `s`.
pub proof fn lemma_rank_is_sorted_position<T: Number>(s: Seq<T>, t: Seq<T>, k: int)
    requires
        s.to_multiset() == t.to_multiset(),
        0 <= k < t.len(),
        forall|i: int, j: int| 0 <= i <= j < t.len() ==> #[trigger] t[i].as_int() <= #[trigger] t[j].as_int(),
    ensures
        is_rank(s, k, t[k]),
{
    assert forall|i: int| 0 <= i < k implies #[trigger] t[i].as_int() <= t[k].as_int() by {
        assert(t[i].as_int() <= t[k].as_int());
    }
    assert forall|i: int| k < i < t.len() implies t[k].as_int() <= #[trigger] t[i].as_int() by {
        assert(t[k].as_int() <= t[i].as_int());
    }
    lemma_pivot_rank(t, k);
    lemma_rank_permutation(s, t, k, t[k]);
}


// ---------------------------------------------------------------------------
// selection on the part of a sequence from a position on
// ---------------------------------------------------------------------------

/// The first `n` elements of `s`.
pub open spec fn prefix<T>(s: Seq<T>, n: usize) -> Seq<T> {
    s.take(n as int)
}

/// The elements of `s` from position `n` on.
pub open spec fn suffix<T>(s: Seq<T>, n: usize) -> Seq<T> {
    s.skip(n as int)
}

/// No element before position `start` is above an element from `start` on.
pub open spec fn ordered_split<T: Number>(s: Seq<T>, start: int) -> bool {
    forall|a: int, b: int|
        0 <= a < start <= b < s.len() ==> #[trigger] s[a].as_int() <= #[trigger] s[b].as_int()
}

/// Reordering the part from `start` on keeps the whole multiset, and keeps
/// the part before `start` at or below the rest.
pub proof fn lemma_reorder_suffix<T: Number>(before: Seq<T>, after: Seq<T>, start: usize)
    requires
        start <= before.len(),
        after.len() == before.len(),
        prefix(after, start) == prefix(before, start),
        suffix(after, start).to_multiset() == suffix(before, start).to_multiset(),
        ordered_split(before, start as int),
    ensures
        after.to_multiset() == before.to_multiset(),
        ordered_split(after, start as int),
{
    broadcast use vstd::seq_lib::lemma_multiset_commutative;

    let k = start as int;
    assert(prefix(before, start) + suffix(before, start) =~= before);
    assert(prefix(after, start) + suffix(after, start) =~= after);
    assert forall|a: int, b: int| 0 <= a < k <= b < after.len() implies #[trigger] after[a].as_int()
        <= #[trigger] after[b].as_int() by {
        let x = after[b];
        assert(suffix(after, start)[b - k] == x);
        assert(suffix(after, start).contains(x));
        lemma_contains_permutation(suffix(after, start), suffix(before, start), x);
        let c = choose|c: int| 0 <= c < suffix(before, start).len() && suffix(before, start)[c] == x;
        assert(before[k + c] == x);
        assert(prefix(after, start)[a] == after[a]);
        assert(prefix(before, start)[a] == before[a]);
        assert(before[a].as_int() <= before[k + c].as_int());
    }
}

/// Partitioning the part from `start` on around position `idx` puts the
/// element of rank `idx` there, and leaves everything up to `idx` at or below
/// the rest.
pub proof fn lemma_select_step<T: Number>(s: Seq<T>, start: usize, idx: usize)
    requires
        start <= idx < s.len(),
        ordered_split(s, start as int),
        partitioned_at(suffix(s, start), (idx - start) as usize),
    ensures
        is_rank(s, idx as int, s[idx as int]),
        ordered_split(s, idx + 1),
{
    let k = start as int;
    let m = idx as int;
    let t = suffix(s, start);
    assert(t[m - k] == s[m]);
    assert forall|i: int| 0 <= i < m implies #[trigger] s[i].as_int() <= s[m].as_int() by {
        if i >= k {
            assert(t[i - k] == s[i]);
        }
    }
    assert forall|i: int| m < i < s.len() implies s[m].as_int() <= #[trigger] s[i].as_int() by {
        assert(t[i - k] == s[i]);
    }
    lemma_pivot_rank(s, m);
    assert forall|a: int, b: int| 0 <= a < m + 1 <= b < s.len() implies #[trigger] s[a].as_int()
        <= #[trigger] s[b].as_int() by {
        assert(t[b - k] == s[b]);
        if a >= k {
            assert(t[a - k] == s[a]);
        }
    }
}

// ---------------------------------------------------------------------------
// what the selections mean
// ---------------------------------------------------------------------------

/// The least element of a sequence is one of its elements at or below every
/// element, the whole sequence counted.
pub proof fn lemma_least_is_minimum<T: Number>(s: Seq<T>, x: T)
    ensures
        is_least(s, x) <==> (exists|i: int| 0 <= i < s.len() && s[i] == x) && (forall|i: int|
            0 <= i < s.len() ==> x.as_int() <= #[trigger] s[i].as_int()),
{
}

/// The greatest element of a sequence is one of its elements at or above
/// every element, the whole sequence counted.
pub proof fn lemma_greatest_is_maximum<T: Number>(s: Seq<T>, x: T)
    ensures
        is_greatest(s, x) <==> (exists|i: int| 0 <= i < s.len() && s[i] == x) && (forall|i: int|
            0 <= i < s.len() ==> #[trigger] s[i].as_int() <= x.as_int()),
{
}

/// The lower median of `len >= 1` elements has as many elements before it
/// as after it, or one fewer: it is the lower of the two middle positions,
/// never the upper one of an even length.
pub proof fn lemma_lower_median_rank(len: int)
    requires
        len >= 1,
    ensures
        0 <= lower_median_rank(len) < len,
        lower_median_rank(len) <= (len - 1) - lower_median_rank(len) <= lower_median_rank(len)
            + 1,
        2 * lower_median_rank(len) + 1 == len || 2 * lower_median_rank(len) + 2 == len,
{
}

/// The lower median of a sequence is the first of its two middle elements,
/// the element of rank `(len - 1) / 2`: never above the element of rank
/// `len / 2`, and strictly below it when the two differ.
pub proof fn lemma_lower_median_is_lower_middle<T: Number>(s: Seq<T>, x: T, upper: T)
    requires
        s.len() >= 1,
        is_rank(s, lower_median_rank(s.len() as int), x),
        is_rank(s, (s.len() / 2) as int, upper),
    ensures
        is_rank(s, (s.len() - 1) / 2, x),
        x.as_int() <= upper.as_int(),
        x != upper ==> x.as_int() < upper.as_int(),
        s.len() % 2 == 1 ==> x == upper,
{
    lemma_lower_median_rank(s.len() as int);
    assert(lower_median_rank(s.len() as int) == (s.len() - 1) / 2);
    lemma_ranks_ordered(s, (s.len() - 1) / 2, (s.len() / 2) as int, x, upper);
    if x.as_int() == upper.as_int() {
        T::as_int_injective(x, upper);
    }
    if s.len() % 2 == 1 {
        lemma_rank_unique(s, (s.len() - 1) / 2, x, upper);
    }
}

} // verus!
