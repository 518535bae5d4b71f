use vstd::prelude::*;
use crate::inventory::magnitude;
use crate::solution::MIN_TARGET;

verus! {

/// The sums ascend strictly.
pub open spec fn ascending_sums(sums: Seq<int>) -> bool {
    forall|i: int, j: int| 0 <= i < j < sums.len() ==> sums[i] < sums[j]
}

/// The number of sums below `target`: in an ascending table, the position
/// at which `target` stands or would be inserted.
pub open spec fn count_below(sums: Seq<int>, target: int) -> int
    decreases sums.len(),
{
    if sums.len() == 0 {
        0
    } else if sums.last() < target {
        count_below(sums.drop_last(), target) + 1
    } else {
        count_below(sums.drop_last(), target)
    }
}

/// How far the sum `s` lies from `target`.
pub open spec fn distance(s: int, target: int) -> int {
    magnitude(s - target)
}

/// The position of the row that a lookup of `target` returns.  Below
/// `MIN_TARGET` it is the first row.  Otherwise it is the row with the sum
/// `target` if there is one, else the nearer of the two rows between
/// which `target` would be inserted, the upper one if they are equally
/// near, and the only one of them where `target` lies outside the table.
pub open spec fn lookup_index(sums: Seq<int>, target: int) -> int {
    let p = count_below(sums, target);
    if target < MIN_TARGET {
        0
    } else if p < sums.len() && sums[p] == target {
        p
    } else if p == 0 {
        0
    } else if p == sums.len() || distance(sums[p], target) > distance(sums[p - 1], target) {
        p - 1
    } else {
        p
    }
}

/// A position that parts the sums below `target` from the others is the
/// number of sums below `target`.
pub proof fn lemma_count_below_is_partition(sums: Seq<int>, target: int, p: int)
    requires
        0 <= p <= sums.len(),
        forall|i: int| 0 <= i < p ==> sums[i] < target,
        forall|i: int| p <= i < sums.len() ==> sums[i] >= target,
    ensures
        count_below(sums, target) == p,
    decreases sums.len(),
{
    if sums.len() > 0 {
        let rest = sums.drop_last();
        if p == sums.len() {
            lemma_count_below_is_partition(rest, target, p - 1);
        } else {
            lemma_count_below_is_partition(rest, target, p);
        }
    }
}

/// In an ascending table the number of sums below `target` parts the sums
/// below `target` from the others.
pub proof fn lemma_count_below_parts(sums: Seq<int>, target: int)
    requires
        ascending_sums(sums),
    ensures
        0 <= count_below(sums, target) <= sums.len(),
        forall|i: int| 0 <= i < count_below(sums, target) ==> sums[i] < target,
        forall|i: int| count_below(sums, target) <= i < sums.len() ==> sums[i] >= target,
    decreases sums.len(),
{
    if sums.len() > 0 {
        let rest = sums.drop_last();
        assert(ascending_sums(rest));
        lemma_count_below_parts(rest, target);
        let p = count_below(rest, target);
        if sums.last() < target {
            if p < rest.len() {
                assert(rest[p] >= target);
                assert(sums[p] < sums[sums.len() - 1]);
            }
            assert forall|i: int| 0 <= i < p + 1 implies sums[i] < target by {
                if i < p {
                    assert(rest[i] < target);
                }
            }
        } else {
            assert forall|i: int| 0 <= i < p implies sums[i] < target by {
                assert(rest[i] < target);
            }
            assert forall|i: int| p <= i < sums.len() implies sums[i] >= target by {
                if i < rest.len() {
                    assert(rest[i] >= target);
                }
            }
        }
    }
}

/// A lookup in a table that is not empty returns one of its rows.
pub proof fn lemma_lookup_in_table(sums: Seq<int>, target: int)
    requires
        ascending_sums(sums),
        sums.len() > 0,
    ensures
        0 <= lookup_index(sums, target) < sums.len(),
{
    lemma_count_below_parts(sums, target);
}

/// A lookup of a mass that is not below `MIN_TARGET` and that the table
/// holds returns the row with that sum.
pub proof fn lemma_lookup_exact(sums: Seq<int>, target: int, i: int)
    requires
        ascending_sums(sums),
        0 <= i < sums.len(),
        sums[i] == target,
        target >= MIN_TARGET,
    ensures
        lookup_index(sums, target) == i,
{
    lemma_count_below_is_partition(sums, target, i);
}

/// A lookup of a mass below `MIN_TARGET` returns the first row, however
/// far from it the mass lies.
pub proof fn lemma_lookup_below_range(sums: Seq<int>, target: int)
    requires
        target < MIN_TARGET,
    ensures
        lookup_index(sums, target) == 0,
{
}

/// No row lies nearer to the mass looked up than the row returned, as
/// long as the mass is not both below `MIN_TARGET` and above the first
/// sum.  Of two rows equally near, the one with the larger sum is
/// returned.
pub proof fn lemma_lookup_nearest(sums: Seq<int>, target: int)
    requires
        ascending_sums(sums),
        sums.len() > 0,
        target >= MIN_TARGET || target <= sums[0],
    ensures
        forall|j: int|
            0 <= j < sums.len() ==> distance(sums[lookup_index(sums, target)], target) <= distance(
                #[trigger] sums[j],
                target,
            ),
        forall|j: int|
            0 <= j < sums.len() && distance(#[trigger] sums[j], target) == distance(
                sums[lookup_index(sums, target)],
                target,
            ) ==> sums[j] <= sums[lookup_index(sums, target)],
{
    lemma_count_below_parts(sums, target);
    let p = count_below(sums, target);
    let r = lookup_index(sums, target);
    if target < MIN_TARGET {
        assert(r == 0);
    }
    assert forall|j: int| 0 <= j < sums.len() implies distance(sums[r], target) <= distance(
        #[trigger] sums[j],
        target,
    ) && (distance(sums[j], target) == distance(sums[r], target) ==> sums[j] <= sums[r]) by {
        if j < p {
            assert(sums[j] < target);
            if j < p - 1 {
                assert(sums[j] < sums[p - 1]);
            }
        } else {
            assert(sums[j] >= target);
            if j > p {
                assert(sums[p] < sums[j]);
            }
        }
    }
}

/// A lookup never returns a row that lies farther from the mass than
/// both of its neighbours in the table.  For a mass below `MIN_TARGET`
/// this holds only where the first row is no farther than the second.
pub proof fn lemma_lookup_no_farther_than_neighbours(sums: Seq<int>, target: int)
    requires
        ascending_sums(sums),
        sums.len() > 0,
        target >= MIN_TARGET || sums.len() < 2 || distance(sums[0], target) <= distance(
            sums[1],
            target,
        ),
    ensures
        ({
            let r = lookup_index(sums, target);
            let here = distance(sums[r], target);
            &&& 0 < r ==> here <= distance(sums[r - 1], target) || (r + 1 < sums.len() && here
                <= distance(sums[r + 1], target))
            &&& r == 0 && 1 < sums.len() ==> here <= distance(sums[1], target)
        }),
{
    lemma_lookup_in_table(sums, target);
    if target >= MIN_TARGET {
        lemma_lookup_nearest(sums, target);
    }
}

} // verus!
