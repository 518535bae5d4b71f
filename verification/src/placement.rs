use vstd::prelude::*;
use crate::combination::{indices, valid_combination};
use crate::inventory::{ints, lists_for, magnitude, Denomination};

verus! {

/// The net contribution of a denomination when its contribution list is
/// entered at `index`.
pub open spec fn net_contribution(d: Denomination, index: int) -> int {
    (index - d.count) * d.value
}

/// The number of units that a net contribution stands for: the magnitude
/// of the contribution divided by the value.
pub open spec fn unit_count(d: Denomination, index: int) -> int {
    magnitude(net_contribution(d, index)) / magnitude(d.value as int)
}

/// `times` copies of `value`.
pub open spec fn copies(value: int, times: int) -> Seq<int> {
    Seq::new(
        if times > 0 {
            times as nat
        } else {
            0
        },
        |j: int| value,
    )
}

/// The units that the first `n` denominations put on the left pan: those
/// of the denominations whose net contribution is negative.
pub open spec fn left_units(denoms: Seq<Denomination>, c: Seq<int>, n: int) -> Seq<int>
    decreases n,
{
    if n <= 0 {
        Seq::empty()
    } else if net_contribution(denoms[n - 1], c[n - 1]) < 0 {
        left_units(denoms, c, n - 1) + copies(
            denoms[n - 1].value as int,
            unit_count(denoms[n - 1], c[n - 1]),
        )
    } else {
        left_units(denoms, c, n - 1)
    }
}

/// The units that the first `n` denominations put on the right pan: those
/// of the denominations whose net contribution is positive.
pub open spec fn right_units(denoms: Seq<Denomination>, c: Seq<int>, n: int) -> Seq<int>
    decreases n,
{
    if n <= 0 {
        Seq::empty()
    } else if net_contribution(denoms[n - 1], c[n - 1]) > 0 {
        right_units(denoms, c, n - 1) + copies(
            denoms[n - 1].value as int,
            unit_count(denoms[n - 1], c[n - 1]),
        )
    } else {
        right_units(denoms, c, n - 1)
    }
}

/// A net contribution of `k` units stands for `|k|` units.
pub proof fn lemma_unit_count(d: Denomination, index: int)
    requires
        d.value != 0,
    ensures
        unit_count(d, index) == magnitude(index - d.count),
{
    let k = index - d.count;
    let v = d.value as int;
    assert(magnitude(k * v) == magnitude(k) * magnitude(v)) by (nonlinear_arith);
    assert((magnitude(k) * magnitude(v)) / magnitude(v) == magnitude(k)) by (nonlinear_arith)
        requires
            magnitude(v) > 0,
    ;
}

/// Appends `times` copies of `value` to `units`.
fn push_copies(units: &mut Vec<i64>, value: i64, times: u64)
    ensures
        ints(final(units)@) == ints(old(units)@) + copies(value as int, times as int),
{
    let mut j: u64 = 0;
    assert(ints(units@) =~= ints(old(units)@) + copies(value as int, 0));
    while j < times
        invariant
            j <= times,
            ints(units@) == ints(old(units)@) + copies(value as int, j as int),
        decreases times - j,
    {
        let ghost before = ints(units@);
        units.push(value);
        j = j + 1;
        assert(ints(units@) =~= before.push(value as int));
        assert(copies(value as int, j as int) =~= copies(value as int, j - 1).push(value as int));
        assert(ints(units@) =~= ints(old(units)@) + copies(value as int, j as int));
    }
}

/// Turns a combination into the units on the two pans.
pub fn place(denominations: &Vec<Denomination>, counters: &Vec<usize>) -> (pans: (
    Vec<i64>,
    Vec<i64>,
))
    requires
        valid_combination(lists_for(denominations@), indices(counters@)),
        forall|i: int| 0 <= i < denominations.len() ==> (#[trigger] denominations@[i]).value != 0,
    ensures
        ints(pans.0@) == left_units(
            denominations@,
            indices(counters@),
            denominations.len() as int,
        ),
        ints(pans.1@) == right_units(
            denominations@,
            indices(counters@),
            denominations.len() as int,
        ),
{
    let ghost denoms = denominations@;
    let ghost c = indices(counters@);
    let mut left: Vec<i64> = Vec::new();
    let mut right: Vec<i64> = Vec::new();
    let mut i: usize = 0;
    assert(ints(left@) =~= left_units(denoms, c, 0));
    assert(ints(right@) =~= right_units(denoms, c, 0));
    while i < denominations.len()
        invariant
            i <= denominations.len(),
            denoms == denominations@,
            c == indices(counters@),
            valid_combination(lists_for(denoms), c),
            forall|j: int| 0 <= j < denoms.len() ==> (#[trigger] denoms[j]).value != 0,
            ints(left@) == left_units(denoms, c, i as int),
            ints(right@) == right_units(denoms, c, i as int),
        decreases denominations.len() - i,
    {
        let d = denominations[i];
        let index = counters[i];
        let offset: i128 = index as i128 - d.count as i128;
        proof {
            assert(0 <= c[i as int] < lists_for(denoms)[i as int].len());
            assert(c[i as int] == index);
            lemma_unit_count(d, index as int);
            let k = index - d.count;
            let v = d.value as int;
            assert(net_contribution(d, index as int) == k * v);
            assert((k * v < 0) <==> ((k < 0 && v > 0) || (k > 0 && v < 0))) by (nonlinear_arith);
            assert((k * v > 0) <==> ((k > 0 && v > 0) || (k < 0 && v < 0))) by (nonlinear_arith);
        }
        if offset != 0 {
            let times: u64 = if offset < 0 {
                (-offset) as u64
            } else {
                offset as u64
            };
            if (offset < 0) == (d.value > 0) {
                push_copies(&mut left, d.value, times);
            } else {
                push_copies(&mut right, d.value, times);
            }
        }
        i = i + 1;
    }
    (left, right)
}

} // verus!
