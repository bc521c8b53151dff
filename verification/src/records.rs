//! The text of a dataset: lines of fields that commas separate. A score table is such a text
//! with a whole number in every field.

use crate::error::PlanError;
use crate::normalize::{all_sound, global_offset, is_first_defect, normalized, offset_helr_tables};
use vstd::prelude::*;

verus! {

/// The byte that separates the fields of a line.
pub const COMMA: u8 = 44;

/// The byte that ends a line.
pub const LINE_FEED: u8 = 10;

/// The byte that may stand before the end of a line and is then no part of the line.
pub const CARRIAGE_RETURN: u8 = 13;

/// The pieces of `text` between the separators: one more piece than there are separators, in
/// the order of the text; a piece is empty where two separators meet and at a separator that
/// begins or ends the text.
pub open spec fn fields(text: Seq<u8>, separator: u8) -> Seq<Seq<u8>>
    decreases text.len(),
{
    if text.len() == 0 {
        seq![Seq::<u8>::empty()]
    } else {
        let before = fields(text.drop_last(), separator);
        if text.last() == separator {
            before.push(Seq::<u8>::empty())
        } else {
            before.drop_last().push(before.last().push(text.last()))
        }
    }
}

/// A line without the carriage return at its end, if it has one.
pub open spec fn without_carriage_return(line: Seq<u8>) -> Seq<u8> {
    if line.len() > 0 && line.last() == CARRIAGE_RETURN {
        line.drop_last()
    } else {
        line
    }
}

/// The lines of `text`. A line ends at a line feed; a carriage return right before the line
/// feed belongs to the end of the line. What follows the last line feed is a line too, unless
/// nothing follows it.
pub open spec fn lines_of(text: Seq<u8>) -> Seq<Seq<u8>> {
    let pieces = fields(text, LINE_FEED);
    let ended = Seq::new(
        (pieces.len() - 1) as nat,
        |l: int| without_carriage_return(pieces[l]),
    );
    if pieces.last().len() == 0 {
        ended
    } else {
        ended.push(pieces.last())
    }
}

/// The byte is a decimal digit.
pub open spec fn is_digit(byte: u8) -> bool {
    48 <= byte <= 57
}

/// The number that decimal digits stand for, the most significant first; 0 for none.
pub open spec fn digits_value(digits: Seq<u8>) -> nat
    decreases digits.len(),
{
    if digits.len() == 0 {
        0
    } else {
        digits_value(digits.drop_last()) * 10 + if is_digit(digits.last()) {
            (digits.last() - 48) as nat
        } else {
            0
        }
    }
}

/// Every byte is a decimal digit.
pub open spec fn all_digits(digits: Seq<u8>) -> bool {
    forall|i: int| 0 <= i < digits.len() ==> is_digit(#[trigger] digits[i])
}

/// The whole number that a field stands for, if it stands for one that an `i64` holds: a
/// plus or a minus sign or none, and then decimal digits, at least one, and nothing else.
pub open spec fn field_number(field: Seq<u8>) -> Option<i64> {
    let signed = field.len() > 0 && (field[0] == 43 || field[0] == 45);
    let digits = if signed {
        field.skip(1)
    } else {
        field
    };
    let number = if signed && field[0] == 45 {
        -(digits_value(digits) as int)
    } else {
        digits_value(digits) as int
    };
    if digits.len() > 0 && all_digits(digits) && i64::MIN <= number <= i64::MAX {
        Some(number as i64)
    } else {
        None
    }
}

/// The numbers of a line, if every field of the line stands for a number.
pub open spec fn row_of(line: Seq<u8>) -> Option<Seq<i64>> {
    let parts = fields(line, COMMA);
    if forall|f: int| 0 <= f < parts.len() ==> field_number(#[trigger] parts[f]) is Some {
        Some(Seq::new(parts.len(), |f: int| field_number(parts[f])->0))
    } else {
        None
    }
}

/// The table that a text holds, if every line of the text is a row of numbers.
pub open spec fn table_of(text: Seq<u8>) -> Option<Seq<Seq<i64>>> {
    let lines = lines_of(text);
    if forall|l: int| 0 <= l < lines.len() ==> row_of(#[trigger] lines[l]) is Some {
        Some(Seq::new(lines.len(), |l: int| row_of(lines[l])->0))
    } else {
        None
    }
}

/// Every text of `files` holds a table.
pub open spec fn all_tables(files: Seq<Seq<u8>>) -> bool {
    forall|t: int| 0 <= t < files.len() ==> table_of(#[trigger] files[t]) is Some
}

/// The tables that the texts of `files` hold, in the order of the files.
pub open spec fn tables_of(files: Seq<Seq<u8>>) -> Seq<Seq<Seq<i64>>> {
    Seq::new(files.len(), |t: int| table_of(files[t])->0)
}

/// A text has one piece at least, no piece holds a separator, and the pieces with the
/// separators between them are as long as the text.
pub proof fn lemma_fields(text: Seq<u8>, separator: u8)
    ensures
        fields(text, separator).len() >= 1,
        forall|p: int, i: int|
            0 <= p < fields(text, separator).len() && 0 <= i < fields(text, separator)[p].len()
                ==> (#[trigger] fields(text, separator)[p][i]) != separator,
    decreases text.len(),
{
    if text.len() > 0 {
        lemma_fields(text.drop_last(), separator);
    }
}

/// More digits never stand for a smaller number.
pub proof fn lemma_digits_value_grows(digits: Seq<u8>, count: int)
    requires
        0 <= count <= digits.len(),
    ensures
        digits_value(digits.take(count)) <= digits_value(digits),
    decreases digits.len() - count,
{
    if count < digits.len() {
        assert(digits.take(count + 1).drop_last() =~= digits.take(count));
        lemma_digits_value_grows(digits, count + 1);
    } else {
        assert(digits.take(count) =~= digits);
    }
}

/// The pieces of `text` between the bytes that equal `separator`.
pub fn split(text: &[u8], separator: u8) -> (parts: Vec<Vec<u8>>)
    ensures
        parts.deep_view() == fields(text@, separator),
{
    let mut parts: Vec<Vec<u8>> = Vec::new();
    let mut current: Vec<u8> = Vec::new();
    let mut i: usize = 0;
    assert(text@.take(0) =~= Seq::<u8>::empty());
    assert(parts.deep_view().push(current@) =~= fields(text@.take(0), separator));
    while i < text.len()
        invariant
            i <= text.len(),
            parts.deep_view().push(current@) == fields(text@.take(i as int), separator),
        decreases text.len() - i,
    {
        let ghost before = fields(text@.take(i as int), separator);
        let ghost done = parts.deep_view();
        let ghost piece = current@;
        proof {
            let next = text@.take(i + 1);
            assert(next.drop_last() =~= text@.take(i as int));
            assert(next.last() == text[i as int]);
            assert(before.drop_last() =~= done);
            assert(before.last() == piece);
        }
        if text[i] == separator {
            parts.push(current);
            current = Vec::new();
            assert(parts.deep_view() =~= done.push(piece)) by {
                assert(parts[parts.len() - 1].deep_view() =~= piece);
            }
            assert(parts.deep_view().push(current@) =~= before.push(Seq::<u8>::empty()));
        } else {
            current.push(text[i]);
            assert(parts.deep_view().push(current@) =~= before.drop_last().push(
                before.last().push(text[i as int]),
            ));
        }
        i = i + 1;
    }
    assert(text@.take(i as int) =~= text@);
    let ghost done = parts.deep_view();
    let ghost piece = current@;
    parts.push(current);
    assert(parts.deep_view() =~= done.push(piece)) by {
        assert(parts[parts.len() - 1].deep_view() =~= piece);
    }
    parts
}

/// The lines of `text`.
pub fn lines(text: &[u8]) -> (lines: Vec<Vec<u8>>)
    ensures
        lines.deep_view() == lines_of(text@),
{
    let pieces = split(text, LINE_FEED);
    proof {
        lemma_fields(text@, LINE_FEED);
    }
    let ghost all = pieces.deep_view();
    let count: usize = pieces.len();
    let mut lines: Vec<Vec<u8>> = Vec::new();
    let mut l: usize = 0;
    for piece in rest: pieces
        invariant
            all == fields(text@, LINE_FEED),
            all.len() == count == rest.seq().len(),
            count >= 1,
            forall|i: int| 0 <= i < count ==> (#[trigger] rest.seq()[i])@ == all[i],
            l == rest.index(),
            l < count ==> lines.len() == l,
            forall|i: int|
                0 <= i < l && i < count - 1 ==> (#[trigger] lines[i])@ == without_carriage_return(
                    all[i],
                ),
            l == count ==> lines.deep_view() == lines_of(text@),
    {
        let mut line = piece;
        assert(line@ == all[l as int]);
        if l + 1 < count {
            if line.len() > 0 && line[line.len() - 1] == CARRIAGE_RETURN {
                line.pop();
            }
            assert(line@ =~= without_carriage_return(all[l as int]));
            lines.push(line);
        } else {
            let ghost ended = lines.deep_view();
            assert(ended =~= Seq::new(
                (all.len() - 1) as nat,
                |i: int| without_carriage_return(all[i]),
            )) by {
                assert forall|i: int| 0 <= i < l implies ended[i] == without_carriage_return(
                    all[i],
                ) by {
                    assert(lines[i].deep_view() =~= lines[i]@);
                }
            }
            if line.len() > 0 {
                let ghost last = line@;
                lines.push(line);
                assert(lines.deep_view() =~= ended.push(last)) by {
                    assert(lines[lines.len() - 1].deep_view() =~= last);
                }
            }
        }
        l = l + 1;
    }
    lines
}

/// The whole number that a field stands for, if it stands for one.
pub fn parse_i64(field: &[u8]) -> (number: Option<i64>)
    ensures
        number == field_number(field@),
{
    let length: usize = field.len();
    if length == 0 {
        return None;
    }
    let negative: bool = field[0] == 45;
    let start: usize = if field[0] == 43 || field[0] == 45 {
        1
    } else {
        0
    };
    let ghost digits = field@.skip(start as int);
    assert(start == 0 ==> digits =~= field@);
    if start == length {
        return None;
    }
    let limit: u64 = if negative {
        0x8000_0000_0000_0000
    } else {
        0x7fff_ffff_ffff_ffff
    };
    let mut value: u64 = 0;
    let mut i: usize = start;
    assert(digits.take(0) =~= Seq::<u8>::empty());
    while i < length
        invariant
            length == field.len(),
            length > 0,
            negative == (field[0] == 45),
            start == if field[0] == 43 || field[0] == 45 {
                1int
            } else {
                0int
            },
            limit == if negative {
                0x8000_0000_0000_0000int
            } else {
                0x7fff_ffff_ffff_ffffint
            },
            start <= i <= length,
            digits == field@.skip(start as int),
            start == 0 ==> digits == field@,
            value <= limit,
            value == digits_value(digits.take(i - start)),
            all_digits(digits.take(i - start)),
        decreases length - i,
    {
        let byte: u8 = field[i];
        let ghost next = digits.take(i - start + 1);
        proof {
            assert(next.drop_last() =~= digits.take(i - start));
            assert(next.last() == byte);
            assert(digits[i - start] == byte);
            lemma_digits_value_grows(digits, i - start + 1);
        }
        if byte < 48 || byte > 57 {
            assert(!all_digits(digits));
            return None;
        }
        let digit: u64 = (byte - 48) as u64;
        assert(digits_value(next) == value * 10 + digit);
        if value > (limit - digit) / 10 {
            assert(digits_value(digits) > limit);
            return None;
        }
        value = value * 10 + digit;
        assert forall|k: int| 0 <= k < next.len() implies is_digit(#[trigger] next[k]) by {
            if k < next.len() - 1 {
                assert(next[k] == digits.take(i - start)[k]);
            }
        }
        i = i + 1;
    }
    assert(digits.take(length - start) =~= digits);
    if negative {
        if value == 0x8000_0000_0000_0000 {
            Some(i64::MIN)
        } else {
            Some(-(value as i64))
        }
    } else {
        Some(value as i64)
    }
}

/// The numbers of a line, if every field of the line stands for a number.
pub fn parse_row(line: &[u8]) -> (row: Option<Vec<i64>>)
    ensures
        match row {
            Some(numbers) => row_of(line@) == Some(numbers@),
            None => row_of(line@) is None,
        },
{
    let parts = split(line, COMMA);
    let ghost all = fields(line@, COMMA);
    let mut numbers: Vec<i64> = Vec::new();
    let mut f: usize = 0;
    while f < parts.len()
        invariant
            parts.deep_view() == all,
            all == fields(line@, COMMA),
            f <= parts.len(),
            numbers.len() == f,
            forall|k: int| 0 <= k < f ==> field_number(#[trigger] all[k]) == Some(numbers[k]),
        decreases parts.len() - f,
    {
        assert(parts[f as int].deep_view() =~= parts[f as int]@);
        assert(all[f as int] == parts[f as int]@);
        match parse_i64(parts[f].as_slice()) {
            Some(number) => {
                numbers.push(number);
            },
            None => {
                return None;
            },
        }
        f = f + 1;
    }
    assert(numbers@ =~= row_of(line@)->0);
    Some(numbers)
}

/// The score table that the text of a file holds, if it holds one: one row for each line,
/// one entry for each field.
pub fn parse_helr_table(file_contents: &[u8]) -> (table: Option<Vec<Vec<i64>>>)
    ensures
        match table {
            Some(rows) => table_of(file_contents@) == Some(rows.deep_view()),
            None => table_of(file_contents@) is None,
        },
{
    let lines = lines(file_contents);
    let ghost all = lines_of(file_contents@);
    let mut rows: Vec<Vec<i64>> = Vec::new();
    let mut l: usize = 0;
    while l < lines.len()
        invariant
            lines.deep_view() == all,
            all == lines_of(file_contents@),
            l <= lines.len(),
            rows.len() == l,
            forall|k: int| 0 <= k < l ==> row_of(#[trigger] all[k]) == Some(rows[k]@),
        decreases lines.len() - l,
    {
        assert(lines[l as int].deep_view() =~= lines[l as int]@);
        assert(all[l as int] == lines[l as int]@);
        match parse_row(lines[l].as_slice()) {
            Some(row) => {
                rows.push(row);
            },
            None => {
                return None;
            },
        }
        l = l + 1;
    }
    assert(rows.deep_view() =~= table_of(file_contents@)->0) by {
        assert forall|k: int| 0 <= k < rows.len() implies (#[trigger] rows[k]).deep_view()
            == row_of(all[k])->0 by {
            assert(rows[k].deep_view() =~= rows[k]@);
        }
    }
    Some(rows)
}

/// The score tables that the texts of the files of a dataset hold, in the order of the files.
///
/// Fails with `MalformedTable` where the text of a file holds no table.
pub fn read_helr_tables(files: &[Vec<u8>]) -> (outcome: Result<Vec<Vec<Vec<i64>>>, PlanError>)
    ensures
        match outcome {
            Ok(tables) => all_tables(files.deep_view()) && tables.deep_view() == tables_of(
                files.deep_view(),
            ),
            Err(error) => error == PlanError::MalformedTable && !all_tables(files.deep_view()),
        },
{
    let ghost texts = files.deep_view();
    let mut tables: Vec<Vec<Vec<i64>>> = Vec::new();
    let mut t: usize = 0;
    while t < files.len()
        invariant
            texts == files.deep_view(),
            t <= files.len(),
            tables.len() == t,
            forall|k: int|
                0 <= k < t ==> table_of(#[trigger] texts[k]) == Some(tables[k].deep_view()),
        decreases files.len() - t,
    {
        assert(files[t as int].deep_view() =~= files[t as int]@);
        assert(texts[t as int] == files[t as int]@);
        match parse_helr_table(files[t].as_slice()) {
            Some(table) => {
                tables.push(table);
            },
            None => {
                return Err(PlanError::MalformedTable);
            },
        }
        t = t + 1;
    }
    assert(tables.deep_view() =~= tables_of(texts));
    Ok(tables)
}

/// The score tables of a dataset from the texts of its files, with the offsets taken out,
/// and the sum of the offsets.
///
/// Fails with `MalformedTable` where the text of a file holds no table; else as
/// `offset_helr_tables` fails.
pub fn load_and_offset_helr_tables(files: &[Vec<u8>]) -> (outcome: Result<
    (i64, Vec<Vec<Vec<u64>>>),
    PlanError,
>)
    ensures
        match outcome {
            Ok((offset, tables)) => {
                &&& all_tables(files.deep_view())
                &&& all_sound(tables_of(files.deep_view()))
                &&& offset == global_offset(tables_of(files.deep_view()))
                &&& tables.deep_view() == normalized(tables_of(files.deep_view()))
            },
            Err(PlanError::MalformedTable) => !all_tables(files.deep_view()),
            Err(PlanError::Overflow) => {
                &&& all_tables(files.deep_view())
                &&& all_sound(tables_of(files.deep_view()))
                &&& !(i64::MIN <= global_offset(tables_of(files.deep_view())) <= i64::MAX)
            },
            Err(error) => all_tables(files.deep_view()) && is_first_defect(
                tables_of(files.deep_view()),
                error,
            ),
        },
{
    let helr_tables = match read_helr_tables(files) {
        Ok(tables) => tables,
        Err(error) => {
            return Err(error);
        },
    };
    let stored: &[Vec<Vec<i64>>] = helr_tables.as_slice();
    assert(stored.deep_view() =~= tables_of(files.deep_view()));
    let outcome = offset_helr_tables(stored);
    proof {
        crate::normalize::lemma_defects_are_of_tables(stored.deep_view());
    }
    outcome
}

/// The fields of line `id` of a text but the first, which names the line; nothing where the
/// text has no such line.
pub fn feature_fields(dataset: &[u8], id: usize) -> (values: Option<Vec<Vec<u8>>>)
    ensures
        match values {
            Some(values) => id < lines_of(dataset@).len() && values.deep_view() == fields(
                lines_of(dataset@)[id as int],
                COMMA,
            ).skip(1),
            None => id >= lines_of(dataset@).len(),
        },
{
    let lines = lines(dataset);
    if id >= lines.len() {
        return None;
    }
    assert(lines[id as int].deep_view() =~= lines[id as int]@);
    let mut parts = split(lines[id].as_slice(), COMMA);
    proof {
        lemma_fields(lines[id as int]@, COMMA);
    }
    let ghost all = parts.deep_view();
    parts.remove(0);
    assert(parts.deep_view() =~= all.skip(1));
    Some(parts)
}

} // verus!
