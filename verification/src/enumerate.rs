use vstd::prelude::*;
use std::collections::HashMap;
use crate::inventory::ints;
use crate::combination::{
    achievable, agree, before, combination_sum, first_realizing, indices, least_overshoot,
    lemma_before_extends, lemma_before_precedes, lemma_prefix_sum_agree, lists_of, no_later,
    prefix_sum, realizes, sums_fit, valid_combination, valid_prefix,
};

verus! {

/// What the enumeration keeps at any moment: every recorded sum is realized
/// by the combination stored with it, lies in `[low, high]` or is the one
/// overshoot, and the overshoot, when there is one, is recorded.
pub open spec fn registry_wf(
    sums: Map<i64, Vec<usize>>,
    overshoot: Option<i64>,
    lists: Seq<Seq<int>>,
    low: int,
    high: int,
) -> bool {
    &&& forall|k: i64| #[trigger] sums.contains_key(k) ==> realizes(lists, indices(sums[k]@), k as int)
    &&& forall|k: i64| #[trigger] sums.contains_key(k) ==> low <= k <= high || overshoot == Some(k)
    &&& overshoot matches Some(o) ==> o > high && sums.contains_key(o)
}

/// The combination `c` has been taken into account.  If its sum lies in
/// `[low, high]`, the sum is recorded, with `c` or with a combination that
/// comes before it.  If its sum lies above `high`, the overshoot is no
/// larger, and where it is that sum, it is recorded with `c` or with a
/// combination that comes before it.
pub open spec fn accounted(
    sums: Map<i64, Vec<usize>>,
    overshoot: Option<i64>,
    lists: Seq<Seq<int>>,
    low: int,
    high: int,
    c: Seq<int>,
) -> bool {
    let s = combination_sum(lists, c);
    &&& low <= s <= high ==> {
        &&& i64::MIN <= s <= i64::MAX
        &&& sums.contains_key(s as i64)
        &&& no_later(indices(sums[s as i64]@), c)
    }
    &&& s > high ==> {
        &&& overshoot is Some
        &&& overshoot->0 <= s
        &&& overshoot->0 == s ==> no_later(indices(sums[overshoot->0]@), c)
    }
}

/// Every recorded combination comes before all that begins with the first
/// `n` entries of `prefix`.
pub open spec fn recorded_before(sums: Map<i64, Vec<usize>>, prefix: Seq<int>, n: int) -> bool {
    forall|k: i64| #[trigger] sums.contains_key(k) ==> before(indices(sums[k]@), prefix, n)
}

/// What a finished enumeration holds: exactly the achievable sums in
/// `[low, high]` and the smallest achievable sum above `high`, each with
/// the first combination, in the order of the enumeration, that realizes
/// it.
pub open spec fn is_registry_of(
    sums: Map<i64, Vec<usize>>,
    lists: Seq<Seq<int>>,
    low: int,
    high: int,
) -> bool {
    &&& forall|k: i64| #[trigger]
        sums.contains_key(k) <==> achievable(lists, k as int) && (low <= k <= high
            || least_overshoot(lists, high, k as int))
    &&& forall|k: i64| #[trigger]
        sums.contains_key(k) ==> first_realizing(lists, indices(sums[k]@), k as int)
}

/// Applies the update rule to one finished combination: a sum in range is
/// recorded unless it already is; a sum above the range replaces the
/// overshoot when it is closer to the range.
fn record(
    sums: &mut HashMap<i64, Vec<usize>>,
    overshoot: &mut Option<i64>,
    sum: i64,
    counters: &Vec<usize>,
    low: i64,
    high: i64,
    Ghost(lists): Ghost<Seq<Seq<int>>>,
)
    requires
        registry_wf(old(sums)@, *old(overshoot), lists, low as int, high as int),
        realizes(lists, indices(counters@), sum as int),
        recorded_before(old(sums)@, indices(counters@), counters@.len() as int),
    ensures
        registry_wf(final(sums)@, *final(overshoot), lists, low as int, high as int),
        accounted(
            final(sums)@,
            *final(overshoot),
            lists,
            low as int,
            high as int,
            indices(counters@),
        ),
        forall|c: Seq<int>|
            accounted(old(sums)@, *old(overshoot), lists, low as int, high as int, c)
                ==> #[trigger] accounted(
                final(sums)@,
                *final(overshoot),
                lists,
                low as int,
                high as int,
                c,
            ),
        forall|k: i64| #[trigger]
            final(sums)@.contains_key(k) ==> (old(sums)@.contains_key(k) && final(sums)@[k] == old(
                sums,
            )@[k]) || final(sums)@[k]@ == counters@,
{
    broadcast use vstd::std_specs::hash::group_hash_axioms;

    let ghost c0 = indices(counters@);
    proof {
        assert(agree(c0, c0, c0.len() as int));
        assert forall|k: i64| #[trigger] sums@.contains_key(k) implies no_later(
            indices(sums@[k]@),
            c0,
        ) by {
            lemma_before_precedes(indices(sums@[k]@), c0, c0, c0.len() as int);
        }
    }
    if low <= sum && sum <= high {
        if !sums.contains_key(&sum) {
            sums.insert(sum, counters.clone());
        }
    } else if sum > high {
        let closer = match *overshoot {
            Some(o) => sum < o,
            None => true,
        };
        if closer {
            match *overshoot {
                Some(o) => {
                    sums.remove(&o);
                },
                None => {},
            }
            *overshoot = Some(sum);
            sums.insert(sum, counters.clone());
        }
    }
}

/// Depth-first traversal of the product of the contribution lists.  The
/// first `n` entries of `counters` are fixed and add up to `partial`; the
/// call visits, in ascending order of their indices, every combination
/// that extends them.  What was recorded earlier is kept, but for an
/// overshoot that gives way to a smaller one.
pub fn recurse(
    sums: &mut HashMap<i64, Vec<usize>>,
    overshoot: &mut Option<i64>,
    arr: &Vec<Vec<i64>>,
    n: usize,
    counters: &mut Vec<usize>,
    partial: i64,
    low: i64,
    high: i64,
)
    requires
        n <= arr.len(),
        old(counters).len() == arr.len(),
        valid_prefix(lists_of(arr@), indices(old(counters)@), n as int),
        partial == prefix_sum(lists_of(arr@), indices(old(counters)@), n as int),
        sums_fit(lists_of(arr@)),
        registry_wf(old(sums)@, *old(overshoot), lists_of(arr@), low as int, high as int),
        recorded_before(old(sums)@, indices(old(counters)@), n as int),
    ensures
        final(counters).len() == arr.len(),
        agree(indices(final(counters)@), indices(old(counters)@), n as int),
        registry_wf(final(sums)@, *final(overshoot), lists_of(arr@), low as int, high as int),
        forall|c: Seq<int>|
            accounted(old(sums)@, *old(overshoot), lists_of(arr@), low as int, high as int, c)
                ==> #[trigger] accounted(
                final(sums)@,
                *final(overshoot),
                lists_of(arr@),
                low as int,
                high as int,
                c,
            ),
        forall|c: Seq<int>|
            #[trigger] valid_combination(lists_of(arr@), c) && agree(
                c,
                indices(old(counters)@),
                n as int,
            ) ==> accounted(
                final(sums)@,
                *final(overshoot),
                lists_of(arr@),
                low as int,
                high as int,
                c,
            ),
        forall|k: i64| #[trigger]
            final(sums)@.contains_key(k) ==> (old(sums)@.contains_key(k) && final(sums)@[k] == old(
                sums,
            )@[k]) || (valid_combination(lists_of(arr@), indices(final(sums)@[k]@)) && agree(
                indices(final(sums)@[k]@),
                indices(old(counters)@),
                n as int,
            )),
    decreases arr.len() - n,
{
    let ghost lists = lists_of(arr@);
    let ghost entry = indices(counters@);
    if n == arr.len() {
        assert forall|c: Seq<int>| #[trigger]
            valid_combination(lists, c) && agree(c, entry, n as int) implies c == entry by {
            assert(c =~= entry);
        }
        assert(valid_combination(lists, entry));
        record(sums, overshoot, partial, counters, low, high, Ghost(lists));
        assert(agree(entry, entry, n as int));
        return ;
    }
    let ghost sums0 = sums@;
    let ghost overshoot0 = *overshoot;
    let list = &arr[n];
    let mut i: usize = 0;
    while i < list.len()
        invariant
            n < arr.len(),
            lists == lists_of(arr@),
            list@ == arr@[n as int]@,
            i <= list.len(),
            counters.len() == arr.len(),
            agree(indices(counters@), entry, n as int),
            valid_prefix(lists, entry, n as int),
            partial == prefix_sum(lists, entry, n as int),
            sums_fit(lists),
            registry_wf(sums@, *overshoot, lists, low as int, high as int),
            recorded_before(sums0, entry, n as int),
            forall|c: Seq<int>|
                accounted(sums0, overshoot0, lists, low as int, high as int, c)
                    ==> #[trigger] accounted(sums@, *overshoot, lists, low as int, high as int, c),
            forall|c: Seq<int>|
                #[trigger] valid_combination(lists, c) && agree(c, entry, n as int) && c[n as int]
                    < i ==> accounted(sums@, *overshoot, lists, low as int, high as int, c),
            forall|k: i64| #[trigger]
                sums@.contains_key(k) ==> (sums0.contains_key(k) && sums@[k] == sums0[k]) || (
                valid_combination(lists, indices(sums@[k]@)) && agree(
                    indices(sums@[k]@),
                    entry,
                    n as int,
                ) && indices(sums@[k]@)[n as int] < i),
        decreases list.len() - i,
    {
        counters.set(n, i);
        let ghost chosen = indices(counters@);
        let ghost sums1 = sums@;
        let ghost overshoot1 = *overshoot;
        proof {
            assert(lists[n as int] == ints(list@));
            assert(agree(chosen, entry, n as int));
            assert forall|j: int| 0 <= j < n + 1 implies 0 <= #[trigger] chosen[j]
                < lists[j].len() by {
                if j < n {
                    assert(chosen[j] == entry[j]);
                }
            }
            assert(valid_prefix(lists, chosen, n + 1));
            lemma_prefix_sum_agree(lists, chosen, entry, n as int);
            assert forall|k: i64| #[trigger] sums1.contains_key(k) implies before(
                indices(sums1[k]@),
                chosen,
                n + 1,
            ) by {
                let stored = indices(sums1[k]@);
                if sums0.contains_key(k) && sums1[k] == sums0[k] {
                    lemma_before_extends(stored, entry, chosen, n as int, n + 1);
                } else {
                    assert(agree(stored, chosen, n as int));
                }
            }
        }
        recurse(sums, overshoot, arr, n + 1, counters, partial + list[i], low, high);
        proof {
            assert forall|c: Seq<int>|
                #[trigger] valid_combination(lists, c) && agree(c, entry, n as int) && c[n as int]
                    < i + 1 implies accounted(
                sums@,
                *overshoot,
                lists,
                low as int,
                high as int,
                c,
            ) by {
                if c[n as int] < i {
                    assert(accounted(sums1, overshoot1, lists, low as int, high as int, c));
                } else {
                    assert(agree(c, chosen, n + 1));
                }
            }
            assert forall|c: Seq<int>|
                accounted(
                    sums0,
                    overshoot0,
                    lists,
                    low as int,
                    high as int,
                    c,
                ) implies #[trigger] accounted(
                sums@,
                *overshoot,
                lists,
                low as int,
                high as int,
                c,
            ) by {
                assert(accounted(sums1, overshoot1, lists, low as int, high as int, c));
            }
            assert forall|k: i64| #[trigger] sums@.contains_key(k) implies (sums0.contains_key(k)
                && sums@[k] == sums0[k]) || (valid_combination(lists, indices(sums@[k]@)) && agree(
                indices(sums@[k]@),
                entry,
                n as int,
            ) && indices(sums@[k]@)[n as int] < i + 1) by {
                let stored = indices(sums@[k]@);
                if sums1.contains_key(k) && sums@[k] == sums1[k] {
                } else {
                    assert(agree(stored, chosen, n + 1));
                    assert(stored[n as int] == chosen[n as int]);
                    assert(agree(stored, entry, n as int));
                }
            }
        }
        i = i + 1;
    }
}

/// Enumerates every combination of the contribution lists and returns, for
/// each achievable sum in `[low, high]` and for the smallest achievable sum
/// above `high`, the first combination that realizes it.
pub fn enumerate_sums(arr: &Vec<Vec<i64>>, low: i64, high: i64) -> (sums: HashMap<
    i64,
    Vec<usize>,
>)
    requires
        sums_fit(lists_of(arr@)),
    ensures
        is_registry_of(sums@, lists_of(arr@), low as int, high as int),
{
    let ghost lists = lists_of(arr@);
    let mut sums: HashMap<i64, Vec<usize>> = HashMap::new();
    let mut overshoot: Option<i64> = None;
    let mut counters: Vec<usize> = Vec::new();
    let mut i: usize = 0;
    while i < arr.len()
        invariant
            i <= arr.len(),
            counters.len() == i,
        decreases arr.len() - i,
    {
        counters.push(0);
        i = i + 1;
    }
    let ghost entry = indices(counters@);
    recurse(&mut sums, &mut overshoot, arr, 0, &mut counters, 0, low, high);
    proof {
        assert forall|c: Seq<int>| #[trigger] valid_combination(lists, c) implies accounted(
            sums@,
            overshoot,
            lists,
            low as int,
            high as int,
            c,
        ) by {
            assert(agree(c, entry, 0));
        }
        assert forall|k: i64| #[trigger] sums@.contains_key(k) implies achievable(lists, k as int)
            && (low <= k <= high || least_overshoot(lists, high as int, k as int))
            && first_realizing(lists, indices(sums@[k]@), k as int) by {
            assert(realizes(lists, indices(sums@[k]@), k as int));
            assert forall|t: int| t > high && #[trigger] achievable(lists, t) implies overshoot
                is Some && overshoot->0 <= t by {
                let c = choose|c: Seq<int>| realizes(lists, c, t);
                assert(valid_combination(lists, c));
            }
            assert forall|d: Seq<int>| #[trigger] realizes(lists, d, k as int) implies no_later(
                indices(sums@[k]@),
                d,
            ) by {
                assert(valid_combination(lists, d));
            }
        }
        assert forall|k: i64|
            achievable(lists, k as int) && (low <= k <= high || least_overshoot(
                lists,
                high as int,
                k as int,
            )) implies #[trigger] sums@.contains_key(k) by {
            let c = choose|c: Seq<int>| realizes(lists, c, k as int);
            assert(valid_combination(lists, c));
            if !(low <= k <= high) {
                let o = overshoot->0;
                assert(sums@.contains_key(o));
                assert(realizes(lists, indices(sums@[o]@), o as int));
                assert(achievable(lists, o as int));
            }
        }
    }
    sums
}

} // verus!
