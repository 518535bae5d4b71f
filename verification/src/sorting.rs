use vstd::prelude::*;
use vstd::multiset::{group_multiset_axioms, Multiset};
use vstd::seq_lib::{
    lemma_multiset_commutative, to_multiset_build, to_multiset_contains, to_multiset_len,
};

verus! {

/// No entry is larger than a later one.
pub open spec fn ascending(s: Seq<i64>) -> bool {
    forall|i: int, j: int| 0 <= i <= j < s.len() ==> s[i] <= s[j]
}

/// Every entry is smaller than every later one.
pub open spec fn strictly_ascending(s: Seq<i64>) -> bool {
    forall|i: int, j: int| 0 <= i < j < s.len() ==> s[i] < s[j]
}

/// Merges two ascending vectors into one.
fn merge(a: &Vec<i64>, b: &Vec<i64>) -> (out: Vec<i64>)
    requires
        ascending(a@),
        ascending(b@),
    ensures
        ascending(out@),
        out@.to_multiset() == a@.to_multiset().add(b@.to_multiset()),
{
    let mut out: Vec<i64> = Vec::new();
    let mut i: usize = 0;
    let mut j: usize = 0;
    proof {
        broadcast use group_multiset_axioms;

        assert(a@.take(0) =~= out@);
        assert(b@.take(0) =~= out@);
        to_multiset_len(out@);
        assert(out@.to_multiset() =~= Multiset::<i64>::empty());
        assert(out@.to_multiset() =~= out@.to_multiset().add(out@.to_multiset()));
    }
    while i < a.len() || j < b.len()
        invariant
            i <= a.len(),
            j <= b.len(),
            ascending(a@),
            ascending(b@),
            ascending(out@),
            out@.to_multiset() == a@.take(i as int).to_multiset().add(
                b@.take(j as int).to_multiset(),
            ),
            forall|k: int, l: int| 0 <= k < out.len() && i <= l < a.len() ==> out@[k] <= a@[l],
            forall|k: int, l: int| 0 <= k < out.len() && j <= l < b.len() ==> out@[k] <= b@[l],
        decreases a.len() - i + b.len() - j,
    {
        broadcast use group_multiset_axioms;

        let ghost before = out@;
        if j == b.len() || (i < a.len() && a[i] <= b[j]) {
            out.push(a[i]);
            proof {
                to_multiset_build(before, a@[i as int]);
                a@.lemma_take_succ_push(i as int);
                to_multiset_build(a@.take(i as int), a@[i as int]);
                assert(out@.to_multiset() =~= a@.take(i + 1).to_multiset().add(
                    b@.take(j as int).to_multiset(),
                ));
            }
            i = i + 1;
        } else {
            out.push(b[j]);
            proof {
                to_multiset_build(before, b@[j as int]);
                b@.lemma_take_succ_push(j as int);
                to_multiset_build(b@.take(j as int), b@[j as int]);
                assert(out@.to_multiset() =~= a@.take(i as int).to_multiset().add(
                    b@.take(j + 1).to_multiset(),
                ));
            }
            j = j + 1;
        }
    }
    assert(a@.take(i as int) =~= a@);
    assert(b@.take(j as int) =~= b@);
    out
}

/// An ascending copy of the entries of `v` from `from` up to `to`.
fn sort_range(v: &Vec<i64>, from: usize, to: usize) -> (out: Vec<i64>)
    requires
        from <= to <= v.len(),
    ensures
        ascending(out@),
        out@.to_multiset() == v@.subrange(from as int, to as int).to_multiset(),
    decreases to - from,
{
    if to - from <= 1 {
        let mut out: Vec<i64> = Vec::new();
        if from < to {
            out.push(v[from]);
        }
        assert(out@ =~= v@.subrange(from as int, to as int));
        out
    } else {
        let mid = from + (to - from) / 2;
        let left = sort_range(v, from, mid);
        let right = sort_range(v, mid, to);
        proof {
            lemma_multiset_commutative(
                v@.subrange(from as int, mid as int),
                v@.subrange(mid as int, to as int),
            );
            assert(v@.subrange(from as int, mid as int) + v@.subrange(mid as int, to as int)
                =~= v@.subrange(from as int, to as int));
        }
        merge(&left, &right)
    }
}

/// An ascending rearrangement of `v`.
pub fn sort_ascending(v: &Vec<i64>) -> (out: Vec<i64>)
    ensures
        ascending(out@),
        out@.to_multiset() == v@.to_multiset(),
{
    assert(v@.subrange(0, v.len() as int) =~= v@);
    sort_range(v, 0, v.len())
}

/// An ascending rearrangement of a sequence without duplicates ascends
/// strictly and has the same entries.
pub proof fn lemma_sorted_distinct(a: Seq<i64>, b: Seq<i64>)
    requires
        a.no_duplicates(),
        ascending(b),
        b.to_multiset() == a.to_multiset(),
    ensures
        strictly_ascending(b),
        forall|x: i64| a.contains(x) <==> b.contains(x),
{
    broadcast use group_multiset_axioms;

    a.lemma_multiset_has_no_duplicates();
    b.lemma_multiset_has_no_duplicates_conv();
    assert forall|x: i64| a.contains(x) <==> b.contains(x) by {
        to_multiset_contains(a, x);
        to_multiset_contains(b, x);
    }
}

} // verus!
