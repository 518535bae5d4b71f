use vstd::prelude::*;
use crate::combination::{lists_of, prefix_sum, sums_fit, valid_prefix};

verus! {

/// A weight value together with the number of units of it that exist.
#[derive(Clone, Copy, Debug, PartialEq, Eq, Structural)]
pub struct Denomination {
    pub value: i64,
    pub count: u64,
}

/// Why an inventory cannot be turned into a table.
#[derive(Clone, Copy, Debug, PartialEq, Eq, Structural)]
pub enum InventoryError {
    /// A line of the inventory is not a value followed by a count.
    MalformedInput,
    /// A denomination has the value zero.
    InvalidInventory,
    /// The number of combinations exceeds the enumeration budget.
    IntractableInventory,
    /// Some combination has a sum that a 64-bit signed integer cannot hold.
    SumOverflow,
}

/// The largest number of combinations that `solve` agrees to enumerate.
pub const MAX_COMBINATIONS: u64 = 4_000_000_000;

/// Absolute value of a mathematical integer.
pub open spec fn magnitude(x: int) -> int {
    if x < 0 {
        -x
    } else {
        x
    }
}

/// A sequence of machine integers read as mathematical integers.
pub open spec fn ints(s: Seq<i64>) -> Seq<int> {
    Seq::new(s.len(), |i: int| s[i] as int)
}

/// The net contributions that `count` units of value `value` can make to a
/// sum: `i * value` for `i` from `-count` to `count`, in that order.  A
/// negative count yields no contribution at all.
pub open spec fn contribution_list(value: int, count: int) -> Seq<int> {
    if count < 0 {
        Seq::empty()
    } else {
        Seq::new((2 * count + 1) as nat, |i: int| (i - count) * value)
    }
}

/// `|i * value| <= count * |value|` whenever `|i| <= count`.
pub proof fn lemma_contribution_bounded(i: int, value: int, count: int)
    requires
        -count <= i <= count,
    ensures
        -(count * magnitude(value)) <= i * value <= count * magnitude(value),
{
    assert(-(count * magnitude(value)) <= i * value <= count * magnitude(value))
        by (nonlinear_arith)
        requires
            -count <= i <= count,
            magnitude(value) == value || magnitude(value) == -value,
            magnitude(value) >= 0,
    ;
}

/// Expands one denomination into its contribution list.
pub fn generate_weight_perms(count: i64, weight: i64) -> (weights: Vec<i64>)
    requires
        count * magnitude(weight as int) <= i64::MAX,
    ensures
        ints(weights@) == contribution_list(weight as int, count as int),
        weights@.len() == (if count < 0 {
            0
        } else {
            2 * count + 1
        }),
        forall|k: int| 0 <= k < weights@.len() ==> #[trigger] weights@[k] == (k - count) * weight,
{
    let mut weights: Vec<i64> = Vec::new();
    if count < 0 {
        assert(ints(weights@) =~= contribution_list(weight as int, count as int));
        return weights;
    }
    let mut i: i64 = -count;
    while i < count
        invariant
            0 <= count,
            -count <= i <= count,
            count * magnitude(weight as int) <= i64::MAX,
            weights@.len() == i + count,
            forall|k: int| 0 <= k < weights@.len() ==> weights@[k] == (k - count) * weight,
        decreases count - i,
    {
        proof {
            lemma_contribution_bounded(i as int, weight as int, count as int);
        }
        weights.push(i * weight);
        i = i + 1;
    }
    proof {
        lemma_contribution_bounded(count as int, weight as int, count as int);
    }
    weights.push(count * weight);
    assert(ints(weights@) =~= contribution_list(weight as int, count as int));
    weights
}

/// The contribution list of every denomination, in inventory order.
pub open spec fn lists_for(denoms: Seq<Denomination>) -> Seq<Seq<int>> {
    Seq::new(denoms.len(), |i: int| contribution_list(denoms[i].value as int, denoms[i].count as int))
}

/// The largest sum that the first `n` denominations can reach: every unit
/// counted with the magnitude of its value.
pub open spec fn span(denoms: Seq<Denomination>, n: int) -> int
    decreases n,
{
    if n <= 0 {
        0
    } else {
        span(denoms, n - 1) + denoms[n - 1].count * magnitude(denoms[n - 1].value as int)
    }
}

/// The number of combinations of the first `n` denominations: the product
/// of `2 * count + 1` over them.
pub open spec fn combination_count(denoms: Seq<Denomination>, n: int) -> int
    decreases n,
{
    if n <= 0 {
        1
    } else {
        combination_count(denoms, n - 1) * (2 * denoms[n - 1].count + 1)
    }
}

/// Some denomination has the value zero.
pub open spec fn has_zero_value(denoms: Seq<Denomination>) -> bool {
    exists|i: int| 0 <= i < denoms.len() && (#[trigger] denoms[i]).value == 0
}

/// The reason for which an inventory is refused under the given budget, if
/// there is one.  A zero value is reported before an excess of
/// combinations, and that before a sum that does not fit.
pub open spec fn inventory_verdict(denoms: Seq<Denomination>, budget: int) -> Option<
    InventoryError,
> {
    if has_zero_value(denoms) {
        Some(InventoryError::InvalidInventory)
    } else if combination_count(denoms, denoms.len() as int) > budget {
        Some(InventoryError::IntractableInventory)
    } else if span(denoms, denoms.len() as int) > i64::MAX {
        Some(InventoryError::SumOverflow)
    } else {
        None
    }
}

/// Every contribution list of the inventory can be held in 64-bit signed
/// integers.
pub open spec fn expandable(denoms: Seq<Denomination>) -> bool {
    forall|i: int|
        0 <= i < denoms.len() ==> (#[trigger] denoms[i]).count <= i64::MAX && denoms[i].count
            * magnitude(denoms[i].value as int) <= i64::MAX
}

/// The span and the number of combinations grow with the number of
/// denominations taken.
pub proof fn lemma_span_count_monotone(denoms: Seq<Denomination>, m: int, n: int)
    requires
        0 <= m <= n <= denoms.len(),
    ensures
        0 <= span(denoms, m) <= span(denoms, n),
        1 <= combination_count(denoms, m) <= combination_count(denoms, n),
    decreases n,
{
    if n > 0 {
        let below = if m == n {
            n - 1
        } else {
            m
        };
        lemma_span_count_monotone(denoms, below, n - 1);
        let c = denoms[n - 1].count as int;
        let v = magnitude(denoms[n - 1].value as int);
        let p = combination_count(denoms, n - 1);
        assert(c * v >= 0) by (nonlinear_arith)
            requires
                c >= 0,
                v >= 0,
        ;
        assert(p * (2 * c + 1) >= p) by (nonlinear_arith)
            requires
                c >= 0,
                p >= 1,
        ;
    }
}

/// Counts the combinations of the inventory, as long as there are no more
/// than `budget` of them.
pub fn count_combinations(denominations: &Vec<Denomination>, budget: u64) -> (count: Option<u64>)
    ensures
        count == (if combination_count(denominations@, denominations@.len() as int) <= budget {
            Some(combination_count(denominations@, denominations@.len() as int) as u64)
        } else {
            None
        }),
{
    let ghost denoms = denominations@;
    let len = denominations.len();
    if budget == 0 {
        proof {
            lemma_span_count_monotone(denoms, 0, len as int);
        }
        return None;
    }
    let mut product: u64 = 1;
    let mut i: usize = 0;
    while i < len
        invariant
            i <= len,
            len == denoms.len(),
            denoms == denominations@,
            product == combination_count(denoms, i as int),
            1 <= product <= budget,
        decreases len - i,
    {
        let factor: u128 = 2 * (denominations[i].count as u128) + 1;
        proof {
            lemma_span_count_monotone(denoms, i as int, i as int);
            lemma_span_count_monotone(denoms, i + 1, len as int);
            assert(product * factor >= factor) by (nonlinear_arith)
                requires
                    product >= 1,
                    factor >= 0,
            ;
        }
        if factor > budget as u128 {
            return None;
        }
        assert(product * factor <= 0xffff_ffff_ffff_ffff * 0xffff_ffff_ffff_ffff)
            by (nonlinear_arith)
            requires
                0 <= product <= 0xffff_ffff_ffff_ffff,
                0 <= factor <= 0xffff_ffff_ffff_ffff,
        ;
        let next: u128 = product as u128 * factor;
        if next > budget as u128 {
            return None;
        }
        product = next as u64;
        i = i + 1;
    }
    Some(product)
}

/// Checks an inventory before any enumeration: no value is zero, the
/// number of combinations stays within `budget`, and every sum fits.
pub fn validate_inventory(denominations: &Vec<Denomination>, budget: u64) -> (verdict: Result<
    (),
    InventoryError,
>)
    ensures
        verdict == match inventory_verdict(denominations@, budget as int) {
            Some(e) => Err::<(), InventoryError>(e),
            None => Ok::<(), InventoryError>(()),
        },
{
    let ghost denoms = denominations@;
    let len = denominations.len();
    let mut i: usize = 0;
    while i < len
        invariant
            i <= len,
            len == denoms.len(),
            denoms == denominations@,
            forall|j: int| 0 <= j < i ==> (#[trigger] denoms[j]).value != 0,
        decreases len - i,
    {
        if denominations[i].value == 0 {
            return Err(InventoryError::InvalidInventory);
        }
        i = i + 1;
    }
    assert(!has_zero_value(denoms));
    if count_combinations(denominations, budget).is_none() {
        return Err(InventoryError::IntractableInventory);
    }
    let mut total: u128 = 0;
    i = 0;
    while i < len
        invariant
            i <= len,
            len == denoms.len(),
            denoms == denominations@,
            !has_zero_value(denoms),
            combination_count(denoms, len as int) <= budget,
            total == span(denoms, i as int),
            total <= i64::MAX,
        decreases len - i,
    {
        let value = denominations[i].value;
        let size: u128 = if value < 0 {
            (-(value as i128)) as u128
        } else {
            value as u128
        };
        let count: u128 = denominations[i].count as u128;
        proof {
            lemma_span_count_monotone(denoms, i + 1, len as int);
            assert(0 <= count * size <= 0xffff_ffff_ffff_ffff * 0x8000_0000_0000_0000)
                by (nonlinear_arith)
                requires
                    0 <= count <= 0xffff_ffff_ffff_ffff,
                    0 <= size <= 0x8000_0000_0000_0000,
            ;
        }
        total = total + count * size;
        if total > i64::MAX as u128 {
            return Err(InventoryError::SumOverflow);
        }
        i = i + 1;
    }
    Ok(())
}

/// No partial sum of a combination lies farther from zero than the span of
/// the denominations it covers.
pub proof fn lemma_prefix_sum_within_span(denoms: Seq<Denomination>, c: Seq<int>, n: int)
    requires
        valid_prefix(lists_for(denoms), c, n),
    ensures
        -span(denoms, n) <= prefix_sum(lists_for(denoms), c, n) <= span(denoms, n),
    decreases n,
{
    if n > 0 {
        lemma_prefix_sum_within_span(denoms, c, n - 1);
        let d = denoms[n - 1];
        assert(0 <= c[n - 1] < lists_for(denoms)[n - 1].len());
        lemma_contribution_bounded(c[n - 1] - d.count, d.value as int, d.count as int);
    }
}

/// An inventory whose span fits in a 64-bit signed integer has only sums
/// that fit.
pub proof fn lemma_inventory_sums_fit(denoms: Seq<Denomination>)
    requires
        span(denoms, denoms.len() as int) <= i64::MAX,
    ensures
        sums_fit(lists_for(denoms)),
{
    let lists = lists_for(denoms);
    assert forall|c: Seq<int>, n: int| #[trigger] valid_prefix(lists, c, n) implies i64::MIN
        <= prefix_sum(lists, c, n) <= i64::MAX by {
        lemma_prefix_sum_within_span(denoms, c, n);
        lemma_span_count_monotone(denoms, n, denoms.len() as int);
    }
}

/// An inventory without a zero value whose span fits has contribution
/// lists that fit.
pub proof fn lemma_accepted_is_expandable(denoms: Seq<Denomination>)
    requires
        !has_zero_value(denoms),
        span(denoms, denoms.len() as int) <= i64::MAX,
    ensures
        expandable(denoms),
{
    assert forall|i: int| 0 <= i < denoms.len() implies (#[trigger] denoms[i]).count <= i64::MAX
        && denoms[i].count * magnitude(denoms[i].value as int) <= i64::MAX by {
        lemma_span_count_monotone(denoms, i, i);
        lemma_span_count_monotone(denoms, i + 1, denoms.len() as int);
        let c = denoms[i].count as int;
        let v = magnitude(denoms[i].value as int);
        assert(denoms[i].value != 0);
        assert(c <= c * v) by (nonlinear_arith)
            requires
                c >= 0,
                v >= 1,
        ;
    }
}

/// Expands every denomination of the inventory, in order.
pub fn expand(denominations: &Vec<Denomination>) -> (arr: Vec<Vec<i64>>)
    requires
        expandable(denominations@),
    ensures
        lists_of(arr@) == lists_for(denominations@),
{
    let mut arr: Vec<Vec<i64>> = Vec::new();
    let mut i: usize = 0;
    while i < denominations.len()
        invariant
            i <= denominations.len(),
            expandable(denominations@),
            arr.len() == i,
            forall|j: int|
                0 <= j < i ==> ints(#[trigger] arr@[j]@) == contribution_list(
                    denominations@[j].value as int,
                    denominations@[j].count as int,
                ),
        decreases denominations.len() - i,
    {
        let d = denominations[i];
        assert(denominations@[i as int].count <= i64::MAX);
        arr.push(generate_weight_perms(d.count as i64, d.value));
        i = i + 1;
    }
    assert(lists_of(arr@) =~= lists_for(denominations@));
    arr
}

} // verus!
