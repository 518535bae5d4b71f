use vstd::prelude::*;
use crate::combination::{
    achievable, first_realizing, indices, least_overshoot, prefix_sum, realizes, sums_fit,
    valid_combination, valid_prefix,
};
use crate::enumerate::{enumerate_sums, is_registry_of};
use crate::inventory::{
    expand, inventory_verdict, lemma_accepted_is_expandable, lemma_inventory_sums_fit, lists_for,
    validate_inventory, Denomination, InventoryError, MAX_COMBINATIONS,
};
use crate::solution::{
    ascending_rows, row_for, table_of, Row, Solution, MAX_TARGET, MIN_TARGET,
};

verus! {

/// Some row has the sum `s`.
pub open spec fn has_sum(rows: Seq<Row>, s: int) -> bool {
    exists|i: int| 0 <= i < rows.len() && (#[trigger] rows[i]).sum == s
}

/// The sum `s` belongs in the table: it is achievable, and it lies in
/// `[low, high]` or is the smallest achievable sum above `high`.
pub open spec fn retained(lists: Seq<Seq<int>>, low: int, high: int, s: int) -> bool {
    achievable(lists, s) && (low <= s <= high || least_overshoot(lists, high, s))
}

/// The row is what the first combination with the row's sum, in the order
/// of the enumeration, reconstructs to.
pub open spec fn reconstructed(denoms: Seq<Denomination>, row: Row) -> bool {
    exists|c: Seq<int>| #[trigger]
        first_realizing(lists_for(denoms), c, row.sum) && row == row_for(denoms, row.sum, c)
}

/// `rows` is the table of the inventory for the masses from `low` to
/// `high`: its sums ascend strictly, they are exactly the sums that
/// belong in the table, and every row is reconstructed from the first
/// combination with its sum.
pub open spec fn solves(rows: Seq<Row>, denoms: Seq<Denomination>, low: int, high: int) -> bool {
    &&& ascending_rows(rows)
    &&& forall|s: int|
        #![trigger has_sum(rows, s)]
        #![trigger retained(lists_for(denoms), low, high, s)]
        has_sum(rows, s) <==> retained(lists_for(denoms), low, high, s)
    &&& forall|i: int| 0 <= i < rows.len() ==> reconstructed(denoms, #[trigger] rows[i])
}

/// The table of a finished enumeration is the table of the inventory.
pub proof fn lemma_table_solves(
    rows: Seq<Row>,
    sums: Map<i64, Vec<usize>>,
    denoms: Seq<Denomination>,
    low: int,
    high: int,
)
    requires
        sums_fit(lists_for(denoms)),
        is_registry_of(sums, lists_for(denoms), low, high),
        table_of(rows, sums, denoms),
    ensures
        solves(rows, denoms, low, high),
{
    let lists = lists_for(denoms);
    assert forall|s: int|
        #![trigger has_sum(rows, s)]
        #![trigger retained(lists, low, high, s)]
        has_sum(rows, s) <==> retained(lists, low, high, s) by {
        if has_sum(rows, s) {
            let i = choose|i: int| 0 <= i < rows.len() && (#[trigger] rows[i]).sum == s;
            assert(sums.contains_key(rows[i].sum as i64));
        }
        if retained(lists, low, high, s) {
            let c = choose|c: Seq<int>| realizes(lists, c, s);
            assert(valid_prefix(lists, c, lists.len() as int));
            assert(sums.contains_key(s as i64));
            let i = choose|i: int| 0 <= i < rows.len() && rows[i].sum == s as i64;
            assert(rows[i].sum == s);
        }
    }
    assert forall|i: int| 0 <= i < rows.len() implies reconstructed(denoms, #[trigger] rows[i]) by {
        let k = rows[i].sum as i64;
        assert(sums.contains_key(k));
        assert(first_realizing(lists, indices(sums[k]@), rows[i].sum));
    }
}

/// Leaving every unit off the scale is a combination, and its sum is zero.
pub proof fn lemma_zero_achievable(denoms: Seq<Denomination>)
    ensures
        achievable(lists_for(denoms), 0),
{
    let lists = lists_for(denoms);
    let c = Seq::new(denoms.len(), |i: int| denoms[i].count as int);
    assert(valid_combination(lists, c));
    lemma_unused_sum(denoms, c, denoms.len() as int);
    assert(realizes(lists, c, 0));
}

proof fn lemma_unused_sum(denoms: Seq<Denomination>, c: Seq<int>, n: int)
    requires
        0 <= n <= denoms.len(),
        c.len() == denoms.len(),
        forall|i: int| 0 <= i < c.len() ==> c[i] == denoms[i].count,
    ensures
        prefix_sum(lists_for(denoms), c, n) == 0,
    decreases n,
{
    if n > 0 {
        lemma_unused_sum(denoms, c, n - 1);
        let k = c[n - 1] - denoms[n - 1].count;
        let v = denoms[n - 1].value as int;
        assert(lists_for(denoms)[n - 1][c[n - 1]] == k * v);
        assert(k * v == 0) by (nonlinear_arith)
            requires
                k == 0,
        ;
    }
}

/// Builds the table of an inventory for the masses from `MIN_TARGET` to
/// `MAX_TARGET`, or says why the inventory is refused.
pub fn solve(denominations: &Vec<Denomination>) -> (table: Result<Solution, InventoryError>)
    ensures
        match inventory_verdict(denominations@, MAX_COMBINATIONS as int) {
            Some(e) => table == Err::<Solution, InventoryError>(e),
            None => table is Ok && table->Ok_0@.len() > 0 && solves(
                table->Ok_0@,
                denominations@,
                MIN_TARGET as int,
                MAX_TARGET as int,
            ),
        },
{
    match validate_inventory(denominations, MAX_COMBINATIONS) {
        Err(e) => {
            return Err(e);
        },
        Ok(_) => {},
    }
    proof {
        lemma_accepted_is_expandable(denominations@);
        lemma_inventory_sums_fit(denominations@);
    }
    let arr = expand(denominations);
    let sums = enumerate_sums(&arr, MIN_TARGET, MAX_TARGET);
    let table = Solution::create(&sums, denominations);
    proof {
        lemma_table_solves(
            table->Ok_0@,
            sums@,
            denominations@,
            MIN_TARGET as int,
            MAX_TARGET as int,
        );
        lemma_zero_achievable(denominations@);
        assert(retained(lists_for(denominations@), MIN_TARGET as int, MAX_TARGET as int, 0));
        assert(has_sum(table->Ok_0@, 0));
    }
    table
}

} // verus!
