//! Edge records: one line of an edge list, holding two node identifiers.
//!
//! A record is made of fields separated by blanks. Its first two fields are
//! the source and the target of an edge, each a decimal number that fits a
//! node identifier; what follows the second field is not looked at.

use crate::error::GraphError;
use vstd::prelude::*;

verus! {

/// The number of lines at the head of an edge list that hold no record.
pub const HEADER_LINES: usize = 4;

/// A space, a tab, or one of the other ASCII white-space bytes.
pub open spec fn is_blank(byte: u8) -> bool {
    byte == 32 || 9 <= byte <= 13
}

/// A decimal digit.
pub open spec fn is_digit(byte: u8) -> bool {
    48 <= byte <= 57
}

/// The number that a sequence of decimal digits denotes.
pub open spec fn decimal_value(digits: Seq<u8>) -> nat
    decreases digits.len(),
{
    if digits.len() == 0 {
        0
    } else {
        (decimal_value(digits.drop_last()) * 10 + (digits.last() - 48)) as nat
    }
}

/// Every byte is a decimal digit.
pub open spec fn all_digits(digits: Seq<u8>) -> bool {
    forall|i: int| 0 <= i < digits.len() ==> is_digit(#[trigger] digits[i])
}

/// The digits of a field: the field itself, without a plus sign at its head.
pub open spec fn digits_of(field: Seq<u8>) -> Seq<u8> {
    if field.len() > 0 && field[0] == 43 {
        field.drop_first()
    } else {
        field
    }
}

/// The node identifier that a field denotes: one or more decimal digits,
/// after an optional plus sign, whose value fits a node identifier.
pub open spec fn field_value(field: Seq<u8>) -> Option<u32> {
    let digits = digits_of(field);
    if digits.len() > 0 && all_digits(digits) && decimal_value(digits) <= u32::MAX {
        Some(decimal_value(digits) as u32)
    } else {
        None
    }
}

/// The first position at or after `from` that holds no blank; the length
/// of the record if there is none.
pub open spec fn skip_blanks(record: Seq<u8>, from: int) -> int
    decreases record.len() - from,
{
    if 0 <= from < record.len() && is_blank(record[from]) {
        skip_blanks(record, from + 1)
    } else {
        from
    }
}

/// The first position at or after `from` that holds a blank; the length of
/// the record if there is none.
pub open spec fn skip_field(record: Seq<u8>, from: int) -> int
    decreases record.len() - from,
{
    if 0 <= from < record.len() && !is_blank(record[from]) {
        skip_field(record, from + 1)
    } else {
        from
    }
}

/// The edge that a record denotes, if its first two fields are node identifiers.
pub open spec fn record_edge(record: Seq<u8>) -> Option<(u32, u32)> {
    let source = skip_blanks(record, 0);
    let source_end = skip_field(record, source);
    let target = skip_blanks(record, source_end);
    let target_end = skip_field(record, target);
    match (
        field_value(record.subrange(source, source_end)),
        field_value(record.subrange(target, target_end)),
    ) {
        (Some(from), Some(to)) => Some((from, to)),
        _ => None,
    }
}

/// The digits read so far never denote more than all of them.
proof fn lemma_prefix_value(digits: Seq<u8>, count: int)
    requires
        0 <= count <= digits.len(),
        all_digits(digits),
    ensures
        decimal_value(digits.take(count)) <= decimal_value(digits),
    decreases digits.len() - count,
{
    if count < digits.len() {
        lemma_prefix_value(digits, count + 1);
        assert(digits.take(count + 1).drop_last() =~= digits.take(count));
        assert(is_digit(digits[count]));
    } else {
        assert(digits.take(count) =~= digits);
    }
}

fn is_blank_byte(byte: u8) -> (blank: bool)
    ensures
        blank == is_blank(byte),
{
    byte == 32 || (9 <= byte && byte <= 13)
}

fn after_blanks(record: &[u8], from: usize) -> (position: usize)
    requires
        from <= record.len(),
    ensures
        position == skip_blanks(record@, from as int),
        from <= position <= record.len(),
{
    let mut position = from;
    while position < record.len() && is_blank_byte(record[position])
        invariant
            from <= position <= record.len(),
            skip_blanks(record@, position as int) == skip_blanks(record@, from as int),
        decreases record.len() - position,
    {
        position = position + 1;
    }
    position
}

fn after_field(record: &[u8], from: usize) -> (position: usize)
    requires
        from <= record.len(),
    ensures
        position == skip_field(record@, from as int),
        from <= position <= record.len(),
{
    let mut position = from;
    while position < record.len() && !is_blank_byte(record[position])
        invariant
            from <= position <= record.len(),
            skip_field(record@, position as int) == skip_field(record@, from as int),
        decreases record.len() - position,
    {
        position = position + 1;
    }
    position
}

/// Reads the field that stands at positions `from..to` of the record.
fn read_field(record: &[u8], from: usize, to: usize) -> (value: Option<u32>)
    requires
        from <= to <= record.len(),
    ensures
        value == field_value(record@.subrange(from as int, to as int)),
{
    let ghost field = record@.subrange(from as int, to as int);
    let ghost digits = digits_of(field);
    let start = if from < to && record[from] == 43 {
        from + 1
    } else {
        from
    };
    if start == to {
        return None;
    }
    assert(digits =~= record@.subrange(start as int, to as int));
    let mut value: u64 = 0;
    let mut position = start;
    while position < to
        invariant
            start <= position <= to <= record.len(),
            from <= to,
            digits == digits_of(record@.subrange(from as int, to as int)),
            digits == record@.subrange(start as int, to as int),
            all_digits(digits.take(position - start)),
            value == decimal_value(digits.take(position - start)),
            value <= u32::MAX,
        decreases to - position,
    {
        let byte = record[position];
        let ghost read = digits.take(position - start);
        let ghost more = digits.take(position - start + 1);
        assert(more.drop_last() =~= read);
        assert(more.last() == byte);
        if byte < 48 || byte > 57 {
            assert(!is_digit(digits[position - start]));
            return None;
        }
        value = value * 10 + (byte - 48) as u64;
        assert forall|i: int| 0 <= i < more.len() implies is_digit(#[trigger] more[i]) by {
            if i < read.len() {
                assert(read[i] == more[i]);
            }
        }
        if value > u32::MAX as u64 {
            proof {
                if all_digits(digits) {
                    lemma_prefix_value(digits, position - start + 1);
                }
            }
            return None;
        }
        position = position + 1;
    }
    assert(digits.take(position - start) =~= digits);
    Some(value as u32)
}

/// Reads the edge that a record holds.
///
/// Fails with `MalformedRecord` unless the record starts, after any blanks,
/// with two fields that are node identifiers.
pub fn parse_edge(record: &[u8]) -> (edge: Result<(u32, u32), GraphError>)
    ensures
        edge == match record_edge(record@) {
            Some(found) => Ok::<(u32, u32), GraphError>(found),
            None => Err::<(u32, u32), GraphError>(GraphError::MalformedRecord),
        },
{
    let source = after_blanks(record, 0);
    let source_end = after_field(record, source);
    let target = after_blanks(record, source_end);
    let target_end = after_field(record, target);
    match (read_field(record, source, source_end), read_field(record, target, target_end)) {
        (Some(from), Some(to)) => Ok((from, to)),
        _ => Err(GraphError::MalformedRecord),
    }
}

} // verus!
