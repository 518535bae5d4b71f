use vstd::prelude::*;
use crate::inventory::ints;

verus! {

/// The contribution lists held by `arr`, read as mathematical integers.
pub open spec fn lists_of(arr: Seq<Vec<i64>>) -> Seq<Seq<int>> {
    Seq::new(arr.len(), |i: int| ints(arr[i]@))
}

/// A sequence of indices read as mathematical integers.
pub open spec fn indices(s: Seq<usize>) -> Seq<int> {
    Seq::new(s.len(), |i: int| s[i] as int)
}

/// The first `n` entries of `c` each index into the list of the same position.
pub open spec fn valid_prefix(lists: Seq<Seq<int>>, c: Seq<int>, n: int) -> bool {
    &&& 0 <= n <= lists.len()
    &&& n <= c.len()
    &&& forall|i: int| 0 <= i < n ==> 0 <= #[trigger] c[i] < lists[i].len()
}

/// `c` chooses one entry of every list.
pub open spec fn valid_combination(lists: Seq<Seq<int>>, c: Seq<int>) -> bool {
    &&& c.len() == lists.len()
    &&& valid_prefix(lists, c, lists.len() as int)
}

/// The sum of the entries that `c` chooses in the first `n` lists.
pub open spec fn prefix_sum(lists: Seq<Seq<int>>, c: Seq<int>, n: int) -> int
    decreases n,
{
    if n <= 0 {
        0
    } else {
        prefix_sum(lists, c, n - 1) + lists[n - 1][c[n - 1]]
    }
}

/// The sum that the combination `c` realizes.
pub open spec fn combination_sum(lists: Seq<Seq<int>>, c: Seq<int>) -> int {
    prefix_sum(lists, c, lists.len() as int)
}

/// `c` is a combination of `lists` whose sum is `s`.
pub open spec fn realizes(lists: Seq<Seq<int>>, c: Seq<int>, s: int) -> bool {
    valid_combination(lists, c) && combination_sum(lists, c) == s
}

/// Some combination of `lists` has the sum `s`.
pub open spec fn achievable(lists: Seq<Seq<int>>, s: int) -> bool {
    exists|c: Seq<int>| realizes(lists, c, s)
}

/// `s` is the smallest achievable sum above `high`.
pub open spec fn least_overshoot(lists: Seq<Seq<int>>, high: int, s: int) -> bool {
    &&& s > high
    &&& achievable(lists, s)
    &&& forall|t: int| t > high && #[trigger] achievable(lists, t) ==> s <= t
}

/// `a` and `b` coincide on their first `n` entries.
pub open spec fn agree(a: Seq<int>, b: Seq<int>, n: int) -> bool {
    &&& n <= a.len()
    &&& n <= b.len()
    &&& forall|i: int| 0 <= i < n ==> a[i] == b[i]
}

/// `a` comes before `b` in the order of the enumeration: where they first
/// differ, `a` holds the smaller index.
pub open spec fn precedes(a: Seq<int>, b: Seq<int>) -> bool {
    exists|i: int| 0 <= i < a.len() && i < b.len() && #[trigger] agree(a, b, i) && a[i] < b[i]
}

/// `a` is `b` or comes before it in the order of the enumeration.
pub open spec fn no_later(a: Seq<int>, b: Seq<int>) -> bool {
    a == b || precedes(a, b)
}

/// `a` comes before every sequence that begins with the first `n` entries
/// of `p`: it leaves them, at some position, for a smaller index.
pub open spec fn before(a: Seq<int>, p: Seq<int>, n: int) -> bool {
    exists|i: int| 0 <= i < n && i < a.len() && #[trigger] agree(a, p, i) && a[i] < p[i]
}

/// `c` is the first combination, in the order of the enumeration, whose
/// sum is `s`.
pub open spec fn first_realizing(lists: Seq<Seq<int>>, c: Seq<int>, s: int) -> bool {
    &&& realizes(lists, c, s)
    &&& forall|d: Seq<int>| #[trigger] realizes(lists, d, s) ==> no_later(c, d)
}

/// Every partial sum of every combination fits in a 64-bit signed integer.
pub open spec fn sums_fit(lists: Seq<Seq<int>>) -> bool {
    forall|c: Seq<int>, n: int| #[trigger]
        valid_prefix(lists, c, n) ==> i64::MIN <= prefix_sum(lists, c, n) <= i64::MAX
}

/// A partial sum depends only on the entries it adds up.
pub proof fn lemma_prefix_sum_agree(lists: Seq<Seq<int>>, a: Seq<int>, b: Seq<int>, n: int)
    requires
        agree(a, b, n),
    ensures
        prefix_sum(lists, a, n) == prefix_sum(lists, b, n),
    decreases n,
{
    if n > 0 {
        lemma_prefix_sum_agree(lists, a, b, n - 1);
    }
}

/// What comes before a prefix comes before all that begins with it.
pub proof fn lemma_before_precedes(a: Seq<int>, p: Seq<int>, c: Seq<int>, n: int)
    requires
        before(a, p, n),
        agree(c, p, n),
    ensures
        precedes(a, c),
{
    let i = choose|i: int| 0 <= i < n && i < a.len() && #[trigger] agree(a, p, i) && a[i] < p[i];
    assert(agree(a, c, i));
}

/// What comes before a prefix comes before every longer prefix that
/// begins with it.
pub proof fn lemma_before_extends(a: Seq<int>, p: Seq<int>, q: Seq<int>, n: int, m: int)
    requires
        before(a, p, n),
        agree(q, p, n),
        n <= m,
    ensures
        before(a, q, m),
{
    let i = choose|i: int| 0 <= i < n && i < a.len() && #[trigger] agree(a, p, i) && a[i] < p[i];
    assert(agree(a, q, i));
}

/// Only one combination is the first with a given sum.
pub proof fn lemma_first_unique(lists: Seq<Seq<int>>, a: Seq<int>, b: Seq<int>, s: int)
    requires
        first_realizing(lists, a, s),
        first_realizing(lists, b, s),
    ensures
        a == b,
{
    assert(no_later(a, b));
    assert(no_later(b, a));
    if a != b {
        let i = choose|i: int|
            0 <= i < a.len() && i < b.len() && #[trigger] agree(a, b, i) && a[i] < b[i];
        let j = choose|j: int|
            0 <= j < b.len() && j < a.len() && #[trigger] agree(b, a, j) && b[j] < a[j];
        if i < j {
            assert(b[i] == a[i]);
        } else if j < i {
            assert(a[j] == b[j]);
        }
    }
}

} // verus!
