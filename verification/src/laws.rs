use vstd::prelude::*;
use crate::combination::{
    achievable, first_realizing, lemma_first_unique, prefix_sum, realizes, valid_prefix,
};
use crate::inventory::{contribution_list, lists_for, Denomination};
use crate::lookup::{
    ascending_sums, distance, lemma_lookup_exact, lemma_lookup_in_table, lemma_lookup_nearest,
    lookup_index,
};
use crate::placement::{
    copies, left_units, lemma_unit_count, net_contribution, right_units, unit_count,
};
use crate::solution::{ascending_rows, row_for, sums_of, Row, MIN_TARGET};
use crate::solver::{has_sum, reconstructed, retained, solves};

verus! {

/// The sum of the entries of `units`.
pub open spec fn total(units: Seq<int>) -> int
    decreases units.len(),
{
    if units.len() == 0 {
        0
    } else {
        total(units.drop_last()) + units.last()
    }
}

/// The part of a partial sum that comes from denominations with a
/// negative value.
pub open spec fn reversed_sum(denoms: Seq<Denomination>, c: Seq<int>, n: int) -> int
    decreases n,
{
    if n <= 0 {
        0
    } else if denoms[n - 1].value < 0 {
        reversed_sum(denoms, c, n - 1) + net_contribution(denoms[n - 1], c[n - 1])
    } else {
        reversed_sum(denoms, c, n - 1)
    }
}

/// The contribution list of `count` units has `2 * count + 1` entries,
/// mirrors itself around its middle with the sign changed, and holds zero
/// in its middle.
pub proof fn lemma_contribution_list_shape(value: int, count: int)
    requires
        count >= 0,
    ensures
        contribution_list(value, count).len() == 2 * count + 1,
        forall|i: int|
            0 <= i < 2 * count + 1 ==> #[trigger] contribution_list(value, count)[i]
                == -contribution_list(value, count)[2 * count - i],
        contribution_list(value, count)[count] == 0,
        contribution_list(value, count).contains(0),
{
    let list = contribution_list(value, count);
    assert forall|i: int| 0 <= i < 2 * count + 1 implies #[trigger] list[i] == -list[2 * count
        - i] by {
        assert((i - count) * value == -((2 * count - i - count) * value)) by (nonlinear_arith);
    }
    assert(list[count] == 0) by {
        assert((count - count) * value == 0) by (nonlinear_arith);
    }
}

/// The total of a concatenation is the sum of the totals.
pub proof fn lemma_total_add(a: Seq<int>, b: Seq<int>)
    ensures
        total(a + b) == total(a) + total(b),
    decreases b.len(),
{
    if b.len() == 0 {
        assert(a + b =~= a);
    } else {
        lemma_total_add(a, b.drop_last());
        assert((a + b).drop_last() =~= a + b.drop_last());
    }
}

/// The total of `times` copies of `value` is their product.
pub proof fn lemma_total_copies(value: int, times: int)
    requires
        times >= 0,
    ensures
        total(copies(value, times)) == times * value,
    decreases times,
{
    if times > 0 {
        lemma_total_copies(value, times - 1);
        assert(copies(value, times).drop_last() =~= copies(value, times - 1));
        assert(times * value == (times - 1) * value + value) by (nonlinear_arith);
    } else {
        assert(times * value == 0) by (nonlinear_arith)
            requires
                times == 0,
        ;
    }
}

/// What the right pan holds beyond the left pan is the sum of the
/// combination, less twice the part of it that comes from denominations
/// with a negative value.
pub proof fn lemma_placement_balance(denoms: Seq<Denomination>, c: Seq<int>, n: int)
    requires
        valid_prefix(lists_for(denoms), c, n),
    ensures
        total(right_units(denoms, c, n)) - total(left_units(denoms, c, n)) == prefix_sum(
            lists_for(denoms),
            c,
            n,
        ) - 2 * reversed_sum(denoms, c, n),
    decreases n,
{
    if n > 0 {
        lemma_placement_balance(denoms, c, n - 1);
        let d = denoms[n - 1];
        let index = c[n - 1];
        let k = index - d.count;
        let v = d.value as int;
        let m = net_contribution(d, index);
        assert(0 <= index < lists_for(denoms)[n - 1].len());
        assert(lists_for(denoms)[n - 1][index] == m);
        if m != 0 {
            assert(v != 0) by (nonlinear_arith)
                requires
                    m == k * v,
                    m != 0,
            ;
            lemma_unit_count(d, index);
            let units = unit_count(d, index);
            lemma_total_copies(v, units);
            assert((k * v < 0) <==> ((k < 0 && v > 0) || (k > 0 && v < 0))) by (nonlinear_arith);
            assert((-k) * v == -(k * v)) by (nonlinear_arith);
            if m < 0 {
                lemma_total_add(left_units(denoms, c, n - 1), copies(v, units));
            } else {
                lemma_total_add(right_units(denoms, c, n - 1), copies(v, units));
            }
        }
    }
}

/// The sum of a row is what its right pan holds beyond its left pan, where
/// the denominations with a negative value contribute nothing on balance
/// to the combination behind the row.
pub proof fn lemma_row_balanced(denoms: Seq<Denomination>, row: Row, c: Seq<int>)
    requires
        realizes(lists_for(denoms), c, row.sum),
        row == row_for(denoms, row.sum, c),
        reversed_sum(denoms, c, denoms.len() as int) == 0,
    ensures
        row.sum == total(row.right) - total(row.left),
{
    lemma_placement_balance(denoms, c, denoms.len() as int);
}

/// No denomination with a negative value among the first `n` leaves
/// nothing to reverse.
pub proof fn lemma_nothing_reversed(denoms: Seq<Denomination>, c: Seq<int>, n: int)
    requires
        0 <= n <= denoms.len(),
        forall|i: int| 0 <= i < denoms.len() ==> (#[trigger] denoms[i]).value > 0,
    ensures
        reversed_sum(denoms, c, n) == 0,
    decreases n,
{
    if n > 0 {
        lemma_nothing_reversed(denoms, c, n - 1);
    }
}

/// In a table of an inventory of positive values, the sum of every row is
/// what its right pan holds beyond its left pan.
pub proof fn lemma_rows_balanced(rows: Seq<Row>, denoms: Seq<Denomination>, low: int, high: int)
    requires
        solves(rows, denoms, low, high),
        forall|i: int| 0 <= i < denoms.len() ==> (#[trigger] denoms[i]).value > 0,
    ensures
        forall|i: int|
            0 <= i < rows.len() ==> (#[trigger] rows[i]).sum == total(rows[i].right) - total(
                rows[i].left,
            ),
{
    assert forall|i: int| 0 <= i < rows.len() implies (#[trigger] rows[i]).sum == total(
        rows[i].right,
    ) - total(rows[i].left) by {
        assert(reconstructed(denoms, rows[i]));
        let c = choose|c: Seq<int>| #[trigger]
            first_realizing(lists_for(denoms), c, rows[i].sum) && rows[i] == row_for(
                denoms,
                rows[i].sum,
                c,
            );
        lemma_nothing_reversed(denoms, c, denoms.len() as int);
        lemma_row_balanced(denoms, rows[i], c);
    }
}

/// The sums of a table ascend strictly, and no sum stands in it twice.
pub proof fn lemma_sums_ascend(rows: Seq<Row>)
    requires
        ascending_rows(rows),
    ensures
        ascending_sums(sums_of(rows)),
        sums_of(rows).no_duplicates(),
{
    let sums = sums_of(rows);
    assert forall|i: int, j: int| 0 <= i < sums.len() && 0 <= j < sums.len() && i != j implies sums[i]
        != sums[j] by {
        if i < j {
            assert(rows[i].sum < rows[j].sum);
        } else {
            assert(rows[j].sum < rows[i].sum);
        }
    }
}

/// A lookup of an achievable mass that lies in the range of the table, and
/// not below `MIN_TARGET`, returns a row with exactly that sum.
pub proof fn lemma_achievable_found(
    rows: Seq<Row>,
    denoms: Seq<Denomination>,
    low: int,
    high: int,
    target: int,
)
    requires
        solves(rows, denoms, low, high),
        low <= target <= high,
        MIN_TARGET <= target,
        achievable(lists_for(denoms), target),
    ensures
        0 <= lookup_index(sums_of(rows), target) < rows.len(),
        rows[lookup_index(sums_of(rows), target)].sum == target,
{
    assert(retained(lists_for(denoms), low, high, target));
    assert(has_sum(rows, target));
    let i = choose|i: int| 0 <= i < rows.len() && (#[trigger] rows[i]).sum == target;
    lemma_lookup_exact(sums_of(rows), target, i);
}

/// In a table whose range is not empty and does not begin below
/// `MIN_TARGET`, no row lies nearer to the mass looked up than the row
/// returned, whatever the mass.
pub proof fn lemma_solved_lookup_nearest(
    rows: Seq<Row>,
    denoms: Seq<Denomination>,
    low: int,
    high: int,
    target: int,
)
    requires
        solves(rows, denoms, low, high),
        rows.len() > 0,
        MIN_TARGET <= low <= high,
    ensures
        0 <= lookup_index(sums_of(rows), target) < rows.len(),
        forall|j: int|
            0 <= j < rows.len() ==> distance(
                rows[lookup_index(sums_of(rows), target)].sum,
                target,
            ) <= distance((#[trigger] rows[j]).sum, target),
{
    let sums = sums_of(rows);
    lemma_lookup_in_table(sums, target);
    assert(has_sum(rows, rows[0].sum));
    assert(retained(lists_for(denoms), low, high, rows[0].sum));
    lemma_lookup_nearest(sums, target);
    assert forall|j: int| 0 <= j < rows.len() implies distance(
        rows[lookup_index(sums, target)].sum,
        target,
    ) <= distance((#[trigger] rows[j]).sum, target) by {
        assert(sums[j] == rows[j].sum);
    }
}

/// Two strictly ascending sequences with the same entries are equal.
pub proof fn lemma_ascending_same_entries(a: Seq<int>, b: Seq<int>)
    requires
        ascending_sums(a),
        ascending_sums(b),
        forall|x: int| a.contains(x) <==> b.contains(x),
    ensures
        a == b,
    decreases a.len(),
{
    if a.len() == 0 {
        if b.len() > 0 {
            assert(b.contains(b[0]));
        }
        assert(a =~= b);
    } else {
        assert(a.contains(a.last()));
        assert(b.len() > 0);
        assert(b.contains(b.last()));
        let i = choose|i: int| 0 <= i < b.len() && b[i] == a.last();
        let j = choose|j: int| 0 <= j < a.len() && a[j] == b.last();
        assert(a.last() == b.last());
        let a0 = a.drop_last();
        let b0 = b.drop_last();
        assert forall|x: int| a0.contains(x) <==> b0.contains(x) by {
            if a0.contains(x) {
                let k = choose|k: int| 0 <= k < a0.len() && a0[k] == x;
                assert(a[k] == x);
                assert(a.contains(x));
                let l = choose|l: int| 0 <= l < b.len() && b[l] == x;
                assert(b0[l] == x);
            }
            if b0.contains(x) {
                let k = choose|k: int| 0 <= k < b0.len() && b0[k] == x;
                assert(b[k] == x);
                assert(b.contains(x));
                let l = choose|l: int| 0 <= l < a.len() && a[l] == x;
                assert(a0[l] == x);
            }
        }
        lemma_ascending_same_entries(a0, b0);
        assert(a =~= a0.push(a.last()));
        assert(b =~= b0.push(b.last()));
    }
}

/// Two tables of one inventory for one range have the same sums in the
/// same order.
pub proof fn lemma_same_sums(
    first: Seq<Row>,
    second: Seq<Row>,
    denoms: Seq<Denomination>,
    low: int,
    high: int,
)
    requires
        solves(first, denoms, low, high),
        solves(second, denoms, low, high),
    ensures
        sums_of(first) == sums_of(second),
{
    let a = sums_of(first);
    let b = sums_of(second);
    assert forall|x: int| a.contains(x) <==> b.contains(x) by {
        if a.contains(x) {
            let i = choose|i: int| 0 <= i < a.len() && a[i] == x;
            assert(first[i].sum == x);
            assert(has_sum(first, x));
            assert(retained(lists_for(denoms), low, high, x));
            assert(has_sum(second, x));
            let j = choose|j: int| 0 <= j < second.len() && (#[trigger] second[j]).sum == x;
            assert(b[j] == x);
        }
        if b.contains(x) {
            let i = choose|i: int| 0 <= i < b.len() && b[i] == x;
            assert(second[i].sum == x);
            assert(has_sum(second, x));
            assert(retained(lists_for(denoms), low, high, x));
            assert(has_sum(first, x));
            let j = choose|j: int| 0 <= j < first.len() && (#[trigger] first[j]).sum == x;
            assert(a[j] == x);
        }
    }
    lemma_ascending_same_entries(a, b);
}

/// An inventory has one table for a range: building it again gives the
/// same rows.
pub proof fn lemma_same_rows(
    first: Seq<Row>,
    second: Seq<Row>,
    denoms: Seq<Denomination>,
    low: int,
    high: int,
)
    requires
        solves(first, denoms, low, high),
        solves(second, denoms, low, high),
    ensures
        first == second,
{
    lemma_same_sums(first, second, denoms, low, high);
    assert(first.len() == sums_of(first).len());
    assert(second.len() == sums_of(second).len());
    assert forall|i: int| 0 <= i < first.len() implies first[i] == second[i] by {
        assert(first[i].sum == sums_of(first)[i]);
        assert(second[i].sum == sums_of(second)[i]);
        assert(reconstructed(denoms, first[i]));
        assert(reconstructed(denoms, second[i]));
        let a = choose|c: Seq<int>| #[trigger]
            first_realizing(lists_for(denoms), c, first[i].sum) && first[i] == row_for(
                denoms,
                first[i].sum,
                c,
            );
        let b = choose|c: Seq<int>| #[trigger]
            first_realizing(lists_for(denoms), c, second[i].sum) && second[i] == row_for(
                denoms,
                second[i].sum,
                c,
            );
        lemma_first_unique(lists_for(denoms), a, b, first[i].sum);
    }
    assert(first =~= second);
}

} // verus!
