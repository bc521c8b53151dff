//! Taking the offset out of the score tables. A table as it is stored holds signed scores; the
//! entry in its first row and last column is the table's offset. With the offset taken away
//! every entry is unsigned, and the sum of the offsets is what a threshold has to give up to
//! be compared with a sum of such entries.

use crate::error::PlanError;
use vstd::prelude::*;

verus! {

/// The table has an entry that can serve as its offset: a first row that is not empty.
pub open spec fn has_reference(table: Seq<Seq<i64>>) -> bool {
    table.len() > 0 && table[0].len() > 0
}

/// The offset of a table: the last entry of its first row; 0 where there is none.
pub open spec fn local_offset(table: Seq<Seq<i64>>) -> int {
    if has_reference(table) {
        table[0].last() as int
    } else {
        0
    }
}

/// No entry of the table lies below `offset`.
pub open spec fn reaches(table: Seq<Seq<i64>>, offset: int) -> bool {
    forall|r: int, c: int|
        0 <= r < table.len() && 0 <= c < table[r].len() ==> (#[trigger] table[r][c]) >= offset
}

/// What is wrong with a table, if anything: it has no offset, or an entry below its offset.
pub open spec fn table_defect(table: Seq<Seq<i64>>) -> Option<PlanError> {
    if !has_reference(table) {
        Some(PlanError::EmptyTable)
    } else if !reaches(table, local_offset(table)) {
        Some(PlanError::NegativeEntry)
    } else {
        None
    }
}

/// No table has a defect.
pub open spec fn all_sound(tables: Seq<Seq<Seq<i64>>>) -> bool {
    forall|t: int| 0 <= t < tables.len() ==> table_defect(#[trigger] tables[t]) is None
}

/// `error` is the defect of the first table that has one.
pub open spec fn is_first_defect(tables: Seq<Seq<Seq<i64>>>, error: PlanError) -> bool {
    exists|t: int|
        0 <= t < tables.len() && table_defect(#[trigger] tables[t]) == Some(error) && all_sound(
            tables.take(t),
        )
}

/// The sum of the offsets of the tables.
pub open spec fn global_offset(tables: Seq<Seq<Seq<i64>>>) -> int
    decreases tables.len(),
{
    if tables.len() == 0 {
        0
    } else {
        global_offset(tables.drop_last()) + local_offset(tables.last())
    }
}

/// The table with `offset` taken away from every entry.
pub open spec fn shifted(table: Seq<Seq<i64>>, offset: int) -> Seq<Seq<u64>> {
    Seq::new(
        table.len(),
        |r: int| Seq::new(table[r].len(), |c: int| (table[r][c] - offset) as u64),
    )
}

/// Every table with its own offset taken away, in the order of the tables.
pub open spec fn normalized(tables: Seq<Seq<Seq<i64>>>) -> Seq<Seq<Seq<u64>>> {
    Seq::new(tables.len(), |t: int| shifted(tables[t], local_offset(tables[t])))
}

/// The defect of a table is that it is empty or that it has a negative entry, and nothing
/// else.
pub proof fn lemma_defects_are_of_tables(tables: Seq<Seq<Seq<i64>>>)
    ensures
        forall|error: PlanError|
            #[trigger] is_first_defect(tables, error) ==> error == PlanError::EmptyTable || error
                == PlanError::NegativeEntry,
{
}

/// In a normalized table the entry that was the offset is 0, and every entry is what it was
/// less the offset, which is not negative.
pub proof fn lemma_normalized_entry(tables: Seq<Seq<Seq<i64>>>, t: int, r: int, c: int)
    requires
        all_sound(tables),
        0 <= t < tables.len(),
        0 <= r < tables[t].len(),
        0 <= c < tables[t][r].len(),
    ensures
        normalized(tables)[t][r][c] == tables[t][r][c] - local_offset(tables[t]),
        normalized(tables)[t][0].last() == 0,
{
    let table = tables[t];
    assert(table_defect(table) is None);
    assert(table[r][c] >= local_offset(table));
    assert(table[0][table[0].len() - 1] >= local_offset(table));
}

/// Takes `offset` away from every entry of `table`, or finds an entry below it.
fn shift_table(table: &Vec<Vec<i64>>, offset: i64) -> (outcome: Result<Vec<Vec<u64>>, PlanError>)
    ensures
        match outcome {
            Ok(rows) => reaches(table.deep_view(), offset as int) && rows.deep_view() == shifted(
                table.deep_view(),
                offset as int,
            ),
            Err(error) => error == PlanError::NegativeEntry && !reaches(
                table.deep_view(),
                offset as int,
            ),
        },
{
    let ghost model = table.deep_view();
    let mut rows: Vec<Vec<u64>> = Vec::new();
    let mut r: usize = 0;
    while r < table.len()
        invariant
            model == table.deep_view(),
            r <= table.len(),
            rows.len() == r,
            forall|i: int, c: int|
                0 <= i < r && 0 <= c < model[i].len() ==> (#[trigger] model[i][c]) >= offset,
            forall|i: int|
                0 <= i < r ==> (#[trigger] rows[i])@ == shifted(model, offset as int)[i],
        decreases table.len() - r,
    {
        let row = &table[r];
        assert(row@ == model[r as int]);
        let mut entries: Vec<u64> = Vec::new();
        let mut c: usize = 0;
        while c < row.len()
            invariant
                model == table.deep_view(),
                row@ == model[r as int],
                0 <= r < model.len(),
                c <= row.len(),
                entries.len() == c,
                forall|j: int| 0 <= j < c ==> (#[trigger] row[j]) >= offset,
                forall|j: int| 0 <= j < c ==> (#[trigger] entries[j]) == (row[j] - offset) as u64,
            decreases row.len() - c,
        {
            let value: i64 = row[c];
            if value < offset {
                assert(model[r as int][c as int] < offset);
                return Err(PlanError::NegativeEntry);
            }
            let difference: i128 = value as i128 - offset as i128;
            entries.push(difference as u64);
            c = c + 1;
        }
        assert(entries@ =~= shifted(model, offset as int)[r as int]);
        rows.push(entries);
        r = r + 1;
    }
    assert(rows.deep_view() =~~= shifted(model, offset as int));
    Ok(rows)
}

/// Takes from every table its own offset and adds the offsets up.
///
/// Gives the sum of the offsets and the shifted tables, in the order in which the tables came.
/// Fails on the first table that has a defect, with that defect: `EmptyTable` where the table
/// has no offset, `NegativeEntry` where an entry lies below it. Fails with `Overflow` where
/// every table is sound and the sum of the offsets is no `i64`.
pub fn offset_helr_tables(helr_tables: &[Vec<Vec<i64>>]) -> (outcome: Result<
    (i64, Vec<Vec<Vec<u64>>>),
    PlanError,
>)
    ensures
        match outcome {
            Ok((offset, tables)) => {
                &&& all_sound(helr_tables.deep_view())
                &&& offset == global_offset(helr_tables.deep_view())
                &&& tables.deep_view() == normalized(helr_tables.deep_view())
            },
            Err(PlanError::Overflow) => {
                &&& all_sound(helr_tables.deep_view())
                &&& !(i64::MIN <= global_offset(helr_tables.deep_view()) <= i64::MAX)
            },
            Err(error) => is_first_defect(helr_tables.deep_view(), error),
        },
{
    let ghost model = helr_tables.deep_view();
    let mut total: i128 = 0;
    let mut tables: Vec<Vec<Vec<u64>>> = Vec::new();
    let mut t: usize = 0;
    assert(model.take(0) =~= Seq::<Seq<Seq<i64>>>::empty());
    while t < helr_tables.len()
        invariant
            model == helr_tables.deep_view(),
            t <= helr_tables.len(),
            tables.len() == t,
            all_sound(model.take(t as int)),
            total == global_offset(model.take(t as int)),
            -0x8000_0000_0000_0000 * t <= total <= 0x8000_0000_0000_0000 * t,
            forall|i: int|
                0 <= i < t ==> (#[trigger] tables[i]).deep_view() == normalized(model)[i],
        decreases helr_tables.len() - t,
    {
        let table = &helr_tables[t];
        let ghost current = model[t as int];
        assert(table.deep_view() == current);
        proof {
            let next = model.take(t + 1);
            assert(next.drop_last() =~= model.take(t as int));
            assert(next.last() == current);
            assert(table.len() > 0 ==> table[0].deep_view() == current[0]);
        }
        if table.len() == 0 || table[0].len() == 0 {
            assert(table_defect(model[t as int]) == Some(PlanError::EmptyTable));
            return Err(PlanError::EmptyTable);
        }
        let local: i64 = table[0][table[0].len() - 1];
        assert(local == local_offset(current));
        match shift_table(table, local) {
            Ok(rows) => {
                tables.push(rows);
            },
            Err(error) => {
                assert(table_defect(model[t as int]) == Some(PlanError::NegativeEntry));
                return Err(error);
            },
        }
        proof {
            let next = model.take(t + 1);
            assert forall|i: int| 0 <= i < next.len() implies table_defect(
                #[trigger] next[i],
            ) is None by {
                if i < t {
                    assert(next[i] == model.take(t as int)[i]);
                }
            }
        }
        total = total + local as i128;
        t = t + 1;
    }
    assert(model.take(t as int) =~= model);
    if total < i64::MIN as i128 || total > i64::MAX as i128 {
        return Err(PlanError::Overflow);
    }
    assert(tables.deep_view() =~= normalized(model));
    Ok((total as i64, tables))
}

} // verus!
