use vstd::prelude::*;
use std::collections::HashMap;
use vstd::std_specs::hash::spec_keys_iter;
use vstd::std_specs::iter::IteratorSpec;
use crate::combination::{indices, valid_combination};
use crate::inventory::{has_zero_value, ints, lists_for, Denomination, InventoryError};
use crate::lookup::{
    ascending_sums, count_below, lemma_count_below_is_partition, lemma_count_below_parts,
    lookup_index,
};
use crate::placement::{left_units, place, right_units};
use crate::sorting::{lemma_sorted_distinct, sort_ascending, strictly_ascending};

verus! {

/// The smallest mass for which the table is asked.
pub const MIN_TARGET: i64 = 0;

/// The largest mass for which the table is asked.
pub const MAX_TARGET: i64 = 10000;

/// One line of the table: a sum, the units on the left pan, the units on
/// the right pan.
pub type SolutionSlice = (i64, Vec<i64>, Vec<i64>);

/// A line of the table as mathematical values.
pub struct Row {
    pub sum: int,
    pub left: Seq<int>,
    pub right: Seq<int>,
}

/// The mathematical value of a line.
pub open spec fn row_of(slice: SolutionSlice) -> Row {
    Row { sum: slice.0 as int, left: ints(slice.1@), right: ints(slice.2@) }
}

/// The mathematical values of a sequence of lines.
pub open spec fn rows_of(slices: Seq<SolutionSlice>) -> Seq<Row> {
    Seq::new(slices.len(), |i: int| row_of(slices[i]))
}

/// The line that a combination with the given sum reconstructs to.
pub open spec fn row_for(denoms: Seq<Denomination>, sum: int, c: Seq<int>) -> Row {
    Row {
        sum,
        left: left_units(denoms, c, denoms.len() as int),
        right: right_units(denoms, c, denoms.len() as int),
    }
}

/// The sums of the rows, in the order of the rows.
pub open spec fn sums_of(rows: Seq<Row>) -> Seq<int> {
    Seq::new(rows.len(), |i: int| rows[i].sum)
}

/// One record of the exported table: the mass asked for, whether the row
/// given for it has another sum, and the units on the two pans.
#[derive(Clone, Debug, PartialEq, Eq)]
pub struct Record {
    pub weight: i64,
    pub was_interpolated: bool,
    pub left: Vec<i64>,
    pub right: Vec<i64>,
}

/// The record that the table gives for the mass `target`.
pub open spec fn record_for(rows: Seq<Row>, target: int) -> (int, bool, Seq<int>, Seq<int>) {
    let row = rows[lookup_index(sums_of(rows), target)];
    (target, row.sum != target, row.left, row.right)
}

/// The mathematical value of a record.
pub open spec fn record_of(record: Record) -> (int, bool, Seq<int>, Seq<int>) {
    (record.weight as int, record.was_interpolated, ints(record.left@), ints(record.right@))
}

/// The sums of the rows ascend strictly.
pub open spec fn ascending_rows(rows: Seq<Row>) -> bool {
    forall|i: int, j: int| 0 <= i < j < rows.len() ==> rows[i].sum < rows[j].sum
}

/// `rows` is the table of the recorded sums: one row for each of them, in
/// strictly ascending order of the sums, each reconstructed from the
/// combination recorded with its sum.
pub open spec fn table_of(
    rows: Seq<Row>,
    sums: Map<i64, Vec<usize>>,
    denoms: Seq<Denomination>,
) -> bool {
    &&& ascending_rows(rows)
    &&& forall|i: int|
        0 <= i < rows.len() ==> {
            &&& i64::MIN <= (#[trigger] rows[i]).sum <= i64::MAX
            &&& sums.contains_key(rows[i].sum as i64)
            &&& rows[i] == row_for(denoms, rows[i].sum, indices(sums[rows[i].sum as i64]@))
        }
    &&& forall|k: i64| #[trigger]
        sums.contains_key(k) ==> exists|i: int| 0 <= i < rows.len() && rows[i].sum == k
}

/// The table: its lines in strictly ascending order of their sums.
#[derive(Debug)]
pub struct Solution {
    values: Vec<SolutionSlice>,
}

impl View for Solution {
    type V = Seq<Row>;

    closed spec fn view(&self) -> Seq<Row> {
        rows_of(self.values@)
    }
}

/// The keys of the map in ascending order.
fn sorted_keys(sums: &HashMap<i64, Vec<usize>>) -> (keys: Vec<i64>)
    ensures
        strictly_ascending(keys@),
        forall|k: i64| keys@.contains(k) <==> sums@.contains_key(k),
{
    broadcast use vstd::std_specs::hash::group_hash_axioms;

    let mut found: Vec<i64> = Vec::new();
    for k in it: sums.keys()
        invariant
            found@ == it.seq().take(it.index()).unref(),
            it.seq() == spec_keys_iter(sums).remaining(),
    {
        found.push(*k);
    }
    let ghost all = spec_keys_iter(sums).remaining().unref();
    assert(found@ == all);
    let keys = sort_ascending(&found);
    proof {
        lemma_sorted_distinct(found@, keys@);
        assert forall|k: i64| found@.contains(k) <==> sums@.contains_key(k) by {
            assert(all.to_set().contains(k) <==> sums@.dom().contains(k));
        }
    }
    keys
}

impl Solution {
    #[verifier::type_invariant]
    spec fn ascending(self) -> bool {
        ascending_rows(rows_of(self.values@))
    }

    /// Reconstructs the table from the recorded sums and their
    /// combinations.  Fails when a denomination has the value zero.
    pub fn create(sums: &HashMap<i64, Vec<usize>>, denominations: &Vec<Denomination>) -> (table:
        Result<Solution, InventoryError>)
        requires
            forall|k: i64| #[trigger]
                sums@.contains_key(k) ==> valid_combination(
                    lists_for(denominations@),
                    indices(sums@[k]@),
                ),
        ensures
            has_zero_value(denominations@) ==> table == Err::<Solution, InventoryError>(
                InventoryError::InvalidInventory,
            ),
            !has_zero_value(denominations@) ==> table is Ok && table_of(
                table->Ok_0@,
                sums@,
                denominations@,
            ),
    {
        broadcast use vstd::std_specs::hash::group_hash_axioms;

        let ghost denoms = denominations@;
        let mut i: usize = 0;
        while i < denominations.len()
            invariant
                i <= denominations.len(),
                denoms == denominations@,
                forall|j: int| 0 <= j < i ==> (#[trigger] denoms[j]).value != 0,
            decreases denominations.len() - i,
        {
            if denominations[i].value == 0 {
                return Err(InventoryError::InvalidInventory);
            }
            i = i + 1;
        }
        let keys = sorted_keys(sums);
        let mut values: Vec<SolutionSlice> = Vec::new();
        let mut n: usize = 0;
        while n < keys.len()
            invariant
                n <= keys.len(),
                denoms == denominations@,
                values.len() == n,
                strictly_ascending(keys@),
                forall|k: i64| keys@.contains(k) <==> sums@.contains_key(k),
                forall|j: int| 0 <= j < denoms.len() ==> (#[trigger] denoms[j]).value != 0,
                forall|k: i64| #[trigger]
                    sums@.contains_key(k) ==> valid_combination(
                        lists_for(denoms),
                        indices(sums@[k]@),
                    ),
                forall|j: int|
                    0 <= j < n ==> (#[trigger] rows_of(values@)[j]) == row_for(
                        denoms,
                        keys@[j] as int,
                        indices(sums@[keys@[j]]@),
                    ),
            decreases keys.len() - n,
        {
            let key = keys[n];
            assert(keys@.contains(key));
            let counters = sums.get(&key).unwrap();
            let (left, right) = place(denominations, counters);
            let ghost before = rows_of(values@);
            values.push((key, left, right));
            assert forall|j: int| 0 <= j < n + 1 implies (#[trigger] rows_of(values@)[j])
                == row_for(denoms, keys@[j] as int, indices(sums@[keys@[j]]@)) by {
                if j < n {
                    assert(rows_of(values@)[j] == before[j]);
                }
            }
            n = n + 1;
        }
        let ghost rows = rows_of(values@);
        assert(ascending_rows(rows)) by {
            assert forall|a: int, b: int| 0 <= a < b < rows.len() implies rows[a].sum
                < rows[b].sum by {
                assert(rows[a].sum == keys@[a]);
                assert(rows[b].sum == keys@[b]);
            }
        }
        assert(table_of(rows, sums@, denoms)) by {
            assert forall|j: int| 0 <= j < rows.len() implies {
                &&& i64::MIN <= (#[trigger] rows[j]).sum <= i64::MAX
                &&& sums@.contains_key(rows[j].sum as i64)
                &&& rows[j] == row_for(denoms, rows[j].sum, indices(sums@[rows[j].sum as i64]@))
            } by {
                assert(keys@.contains(keys@[j]));
                assert(rows[j].sum == keys@[j]);
            }
            assert forall|k: i64| #[trigger] sums@.contains_key(k) implies exists|j: int|
                0 <= j < rows.len() && rows[j].sum == k by {
                assert(keys@.contains(k));
                let j = choose|j: int| 0 <= j < keys@.len() && keys@[j] == k;
                assert(rows[j].sum == k);
            }
        }
        Ok(Solution { values })
    }

    /// The lines of the table, in ascending order of their sums.
    pub fn rows(&self) -> (lines: &Vec<SolutionSlice>)
        ensures
            rows_of(lines@) == self@,
            ascending_rows(self@),
    {
        proof {
            use_type_invariant(self);
        }
        &self.values
    }

    /// The position at which `target` stands in the table or would be
    /// inserted into it.
    fn insertion_point(&self, target: i64) -> (p: usize)
        ensures
            p == count_below(sums_of(self@), target as int),
            p <= self@.len(),
    {
        let ghost sums = sums_of(self@);
        let mut low: usize = 0;
        let mut high: usize = self.values.len();
        while low < high
            invariant
                low <= high <= self.values.len(),
                sums == sums_of(rows_of(self.values@)),
                forall|i: int| 0 <= i < low ==> sums[i] < target,
                forall|i: int| high <= i < sums.len() ==> sums[i] >= target,
            decreases high - low,
        {
            proof {
                use_type_invariant(self);
            }
            let mid = low + (high - low) / 2;
            if self.values[mid].0 < target {
                assert forall|i: int| 0 <= i < mid + 1 implies sums[i] < target by {
                    if i < mid {
                        assert(rows_of(self.values@)[i].sum < rows_of(self.values@)[mid as int].sum);
                    }
                }
                low = mid + 1;
            } else {
                assert forall|i: int| mid <= i < sums.len() implies sums[i] >= target by {
                    if i > mid {
                        assert(rows_of(self.values@)[mid as int].sum < rows_of(self.values@)[i].sum);
                    }
                }
                high = mid;
            }
        }
        proof {
            lemma_count_below_is_partition(sums, target as int, low as int);
        }
        low
    }

    /// The row for the mass `weight`: the first row for a mass below
    /// `MIN_TARGET`, else the row with that sum, else the nearest row.
    pub fn get_closest_combination(&self, weight: i64) -> (row: SolutionSlice)
        requires
            self@.len() > 0,
        ensures
            ascending_rows(self@),
            row_of(row) == self@[lookup_index(sums_of(self@), weight as int)],
    {
        proof {
            use_type_invariant(self);
        }
        let index = self.closest_index(weight);
        let line = &self.values[index];
        (line.0, line.1.clone(), line.2.clone())
    }

    /// The position of the row for the mass `weight`.
    fn closest_index(&self, weight: i64) -> (index: usize)
        requires
            self@.len() > 0,
        ensures
            index == lookup_index(sums_of(self@), weight as int),
            index < self@.len(),
    {
        proof {
            use_type_invariant(self);
            assert(ascending_sums(sums_of(self@)));
            lemma_count_below_parts(sums_of(self@), weight as int);
        }
        if weight < MIN_TARGET {
            return 0;
        }
        let p = self.insertion_point(weight);
        let len = self.values.len();
        if p < len && self.values[p].0 == weight {
            p
        } else if p == 0 {
            0
        } else if p == len {
            p - 1
        } else {
            let above: i128 = self.values[p].0 as i128 - weight as i128;
            let below: i128 = weight as i128 - self.values[p - 1].0 as i128;
            if above > below {
                p - 1
            } else {
                p
            }
        }
    }

    /// The records of the exported table.  With `interpolate`, one record
    /// for every mass from `MIN_TARGET` to `MAX_TARGET`, in that order;
    /// without it, one record for every row of the table.
    pub fn records(&self, interpolate: bool) -> (records: Vec<Record>)
        requires
            interpolate ==> self@.len() > 0,
        ensures
            interpolate ==> records@.len() == MAX_TARGET - MIN_TARGET + 1,
            interpolate ==> forall|i: int|
                0 <= i < records@.len() ==> record_of(#[trigger] records@[i]) == record_for(
                    self@,
                    MIN_TARGET + i,
                ),
            !interpolate ==> records@.len() == self@.len(),
            !interpolate ==> forall|i: int|
                0 <= i < records@.len() ==> record_of(#[trigger] records@[i]) == (
                    self@[i].sum,
                    false,
                    self@[i].left,
                    self@[i].right,
                ),
    {
        let mut records: Vec<Record> = Vec::new();
        if interpolate {
            let mut target: i64 = MIN_TARGET;
            while target <= MAX_TARGET
                invariant
                    MIN_TARGET <= target <= MAX_TARGET + 1,
                    self@.len() > 0,
                    records@.len() == target - MIN_TARGET,
                    forall|i: int|
                        0 <= i < records@.len() ==> record_of(#[trigger] records@[i])
                            == record_for(self@, MIN_TARGET + i),
                decreases MAX_TARGET + 1 - target,
            {
                let index = self.closest_index(target);
                let line = &self.values[index];
                records.push(
                    Record {
                        weight: target,
                        was_interpolated: line.0 != target,
                        left: line.1.clone(),
                        right: line.2.clone(),
                    },
                );
                target = target + 1;
            }
        } else {
            let mut i: usize = 0;
            while i < self.values.len()
                invariant
                    i <= self.values.len(),
                    records@.len() == i,
                    forall|j: int|
                        0 <= j < i ==> record_of(#[trigger] records@[j]) == (
                            self@[j].sum,
                            false,
                            self@[j].left,
                            self@[j].right,
                        ),
                decreases self.values.len() - i,
            {
                let line = &self.values[i];
                records.push(
                    Record {
                        weight: line.0,
                        was_interpolated: false,
                        left: line.1.clone(),
                        right: line.2.clone(),
                    },
                );
                i = i + 1;
            }
        }
        records
    }
}

} // verus!
