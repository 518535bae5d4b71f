use vstd::prelude::*;
use vstd::utf8::encode_utf8;
use crate::inventory::{Denomination, InventoryError};

verus! {

/// The byte is a decimal digit.
pub open spec fn is_digit(byte: u8) -> bool {
    48 <= byte <= 57
}

/// Every byte is a decimal digit.
pub open spec fn all_digits(bytes: Seq<u8>) -> bool {
    forall|i: int| 0 <= i < bytes.len() ==> is_digit(#[trigger] bytes[i])
}

/// The number that a sequence of decimal digits denotes.
pub open spec fn digits_value(bytes: Seq<u8>) -> int
    decreases bytes.len(),
{
    if bytes.len() == 0 {
        0
    } else {
        10 * digits_value(bytes.drop_last()) + (bytes.last() - 48)
    }
}

/// The number that a sequence of bytes denotes if it is made of one digit
/// at least, of digits only, and denotes no more than `limit`.
pub open spec fn digits_within(bytes: Seq<u8>, limit: int) -> Option<int> {
    if bytes.len() > 0 && all_digits(bytes) && digits_value(bytes) <= limit {
        Some(digits_value(bytes))
    } else {
        None
    }
}

/// The integer that a field denotes: an optional sign, `+` or `-`, and
/// then digits, with a value that a 64-bit signed integer can hold.
pub open spec fn integer_literal(field: Seq<u8>) -> Option<int> {
    if field.len() > 0 && field[0] == 45 {
        match digits_within(field.subrange(1, field.len() as int), 0x8000_0000_0000_0000) {
            Some(size) => Some(-size),
            None => None,
        }
    } else if field.len() > 0 && field[0] == 43 {
        digits_within(field.subrange(1, field.len() as int), i64::MAX as int)
    } else {
        digits_within(field, i64::MAX as int)
    }
}

/// The position of the first space at or after `from`, or the length of
/// the line if there is none.
pub open spec fn field_end(line: Seq<u8>, from: int) -> int
    decreases line.len() - from,
{
    if from >= line.len() {
        line.len() as int
    } else if line[from] == 32 {
        from
    } else {
        field_end(line, from + 1)
    }
}

/// The denomination that a line denotes: its first field is the value, its
/// second field the count, which is not negative; fields are separated by
/// single spaces, and further fields are ignored.
pub open spec fn parsed_line(line: Seq<u8>) -> Option<Denomination> {
    let value_end = field_end(line, 0);
    let count_end = field_end(line, value_end + 1);
    if value_end >= line.len() {
        None
    } else {
        match (
            integer_literal(line.subrange(0, value_end)),
            integer_literal(line.subrange(value_end + 1, count_end)),
        ) {
            (Some(value), Some(count)) => if count >= 0 {
                Some(Denomination { value: value as i64, count: count as u64 })
            } else {
                None
            },
            _ => None,
        }
    }
}

/// Digits that are added to a number do not make it smaller.
pub proof fn lemma_digits_value_grows(bytes: Seq<u8>, n: int)
    requires
        all_digits(bytes),
        0 <= n <= bytes.len(),
    ensures
        0 <= digits_value(bytes.take(n)) <= digits_value(bytes),
    decreases bytes.len(),
{
    if n == bytes.len() {
        assert(bytes.take(n) =~= bytes);
        if n > 0 {
            assert(all_digits(bytes.drop_last()));
            lemma_digits_value_grows(bytes.drop_last(), n - 1);
            assert(is_digit(bytes[n - 1]));
        }
    } else {
        assert(all_digits(bytes.drop_last()));
        lemma_digits_value_grows(bytes.drop_last(), n);
        lemma_digits_value_grows(bytes.drop_last(), bytes.len() - 1);
        assert(bytes.drop_last().take(n) =~= bytes.take(n));
        assert(bytes.drop_last().take(bytes.len() - 1) =~= bytes.drop_last());
        assert(is_digit(bytes[bytes.len() - 1]));
    }
}

/// Reads the digits from `from` up to `to`.
fn parse_digits(bytes: &[u8], from: usize, to: usize, limit: u64) -> (number: Option<u64>)
    requires
        from <= to <= bytes@.len(),
    ensures
        match digits_within(bytes@.subrange(from as int, to as int), limit as int) {
            Some(n) => number == Some(n as u64) && 0 <= n <= limit,
            None => number is None,
        },
{
    let ghost field = bytes@.subrange(from as int, to as int);
    if from == to {
        return None;
    }
    let mut number: u64 = 0;
    let mut i: usize = from;
    assert(field.take(0) =~= Seq::<u8>::empty());
    while i < to
        invariant
            from <= i <= to <= bytes@.len(),
            field == bytes@.subrange(from as int, to as int),
            all_digits(field.take(i - from)),
            number == digits_value(field.take(i - from)),
            number <= limit,
        decreases to - i,
    {
        let byte = bytes[i];
        assert(field[i - from] == byte);
        if byte < 48 || byte > 57 {
            return None;
        }
        let next: u128 = number as u128 * 10 + (byte - 48) as u128;
        proof {
            let longer = field.take(i - from + 1);
            assert(longer.drop_last() =~= field.take(i - from));
            assert(all_digits(longer)) by {
                assert forall|j: int| 0 <= j < longer.len() implies is_digit(
                    #[trigger] longer[j],
                ) by {
                    if j < i - from {
                        assert(field.take(i - from)[j] == longer[j]);
                    }
                }
            }
            assert(next == digits_value(longer));
            if all_digits(field) {
                lemma_digits_value_grows(field, i - from + 1);
            }
        }
        if next > limit as u128 {
            return None;
        }
        number = next as u64;
        i = i + 1;
    }
    assert(field.take(to - from) =~= field);
    Some(number)
}

/// Reads the integer written from `from` up to `to`.
fn parse_integer(bytes: &[u8], from: usize, to: usize) -> (number: Option<i64>)
    requires
        from <= to <= bytes@.len(),
    ensures
        match integer_literal(bytes@.subrange(from as int, to as int)) {
            Some(n) => number == Some(n as i64) && i64::MIN <= n <= i64::MAX,
            None => number is None,
        },
{
    let ghost field = bytes@.subrange(from as int, to as int);
    if from < to && bytes[from] == 45 {
        assert(field[0] == 45);
        assert(field.subrange(1, field.len() as int) =~= bytes@.subrange(from + 1, to as int));
        match parse_digits(bytes, from + 1, to, 0x8000_0000_0000_0000) {
            Some(size) => Some((-(size as i128)) as i64),
            None => None,
        }
    } else if from < to && bytes[from] == 43 {
        assert(field[0] == 43);
        assert(field.subrange(1, field.len() as int) =~= bytes@.subrange(from + 1, to as int));
        match parse_digits(bytes, from + 1, to, 0x7fff_ffff_ffff_ffff) {
            Some(size) => Some(size as i64),
            None => None,
        }
    } else {
        if from < to {
            assert(field[0] == bytes@[from as int]);
        }
        match parse_digits(bytes, from, to, 0x7fff_ffff_ffff_ffff) {
            Some(size) => Some(size as i64),
            None => None,
        }
    }
}

/// Finds the end of the field that begins at `from`.
fn find_field_end(bytes: &[u8], from: usize) -> (end: usize)
    requires
        from <= bytes@.len(),
    ensures
        end == field_end(bytes@, from as int),
        from <= end <= bytes@.len(),
{
    let mut end: usize = from;
    while end < bytes.len() && bytes[end] != 32
        invariant
            from <= end <= bytes@.len(),
            field_end(bytes@, end as int) == field_end(bytes@, from as int),
        decreases bytes@.len() - end,
    {
        end = end + 1;
    }
    end
}

/// Reads one line of the inventory, a value and a count separated by a
/// space.
pub fn parse_line(line: &str) -> (parsed: Result<Denomination, InventoryError>)
    ensures
        match parsed_line(encode_utf8(line@)) {
            Some(d) => parsed == Ok::<Denomination, InventoryError>(d),
            None => parsed == Err::<Denomination, InventoryError>(InventoryError::MalformedInput),
        },
{
    let bytes = line.as_bytes();
    let value_end = find_field_end(bytes, 0);
    if value_end >= bytes.len() {
        return Err(InventoryError::MalformedInput);
    }
    let count_end = find_field_end(bytes, value_end + 1);
    let value = match parse_integer(bytes, 0, value_end) {
        Some(value) => value,
        None => {
            return Err(InventoryError::MalformedInput);
        },
    };
    let count = match parse_integer(bytes, value_end + 1, count_end) {
        Some(count) => count,
        None => {
            return Err(InventoryError::MalformedInput);
        },
    };
    if count < 0 {
        return Err(InventoryError::MalformedInput);
    }
    Ok(Denomination { value, count: count as u64 })
}

/// The lines after the first all denote denominations.
pub open spec fn well_formed_lines(lines: Seq<String>) -> bool {
    forall|i: int| 1 <= i < lines.len() ==> parsed_line(encode_utf8(#[trigger] lines[i]@)) is Some
}

/// Reads an inventory given line by line.  The first line is a header and
/// is ignored; every other line gives one denomination.
pub fn parse_inventory(lines: &Vec<String>) -> (parsed: Result<Vec<Denomination>, InventoryError>)
    ensures
        well_formed_lines(lines@) ==> parsed is Ok && parsed->Ok_0@.len() == (if lines@.len()
            > 0 {
            lines@.len() - 1
        } else {
            0
        }) && forall|i: int|
            1 <= i < lines@.len() ==> Some(#[trigger] parsed->Ok_0@[i - 1]) == parsed_line(
                encode_utf8(lines@[i]@),
            ),
        !well_formed_lines(lines@) ==> parsed == Err::<Vec<Denomination>, InventoryError>(
            InventoryError::MalformedInput,
        ),
{
    let mut denominations: Vec<Denomination> = Vec::new();
    let mut i: usize = 1;
    while i < lines.len()
        invariant
            1 <= i,
            i <= lines.len() || i == 1,
            denominations@.len() == i - 1,
            forall|j: int|
                1 <= j < i && j < lines@.len() ==> Some(#[trigger] denominations@[j - 1])
                    == parsed_line(encode_utf8(lines@[j]@)),
        decreases lines.len() - i,
    {
        match parse_line(lines[i].as_str()) {
            Ok(d) => {
                denominations.push(d);
            },
            Err(e) => {
                assert(parsed_line(encode_utf8(lines@[i as int]@)) is None);
                return Err(InventoryError::MalformedInput);
            },
        }
        i = i + 1;
    }
    assert(well_formed_lines(lines@)) by {
        assert forall|j: int| 1 <= j < lines@.len() implies parsed_line(
            encode_utf8(#[trigger] lines@[j]@),
        ) is Some by {
            assert(Some(denominations@[j - 1]) == parsed_line(encode_utf8(lines@[j]@)));
        }
    }
    Ok(denominations)
}

} // verus!
