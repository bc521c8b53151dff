//! Score tables with unsigned entries: rows stand for the values that a template can take,
//! columns for the values that a probe can take. What is said here of such tables is what the
//! planning rests on: the greatest entry of a table, and the score that a template and a probe
//! select.

use crate::normalize::{all_sound, global_offset, lemma_normalized_entry, normalized};
use vstd::prelude::*;

verus! {

/// The table has a first row, and that row has an entry.
pub open spec fn has_entries(table: Seq<Seq<u64>>) -> bool {
    table.len() > 0 && table[0].len() > 0
}

/// The greatest entry of a row; 0 where the row is empty.
pub open spec fn row_max(row: Seq<u64>) -> nat
    decreases row.len(),
{
    if row.len() == 0 {
        0
    } else if row_max(row.drop_last()) < row.last() {
        row.last() as nat
    } else {
        row_max(row.drop_last())
    }
}

/// The greatest entry of a table; 0 where it has no entry.
pub open spec fn table_max(table: Seq<Seq<u64>>) -> nat
    decreases table.len(),
{
    if table.len() == 0 {
        0
    } else if table_max(table.drop_last()) < row_max(table.last()) {
        row_max(table.last())
    } else {
        table_max(table.drop_last())
    }
}

/// The sum of the greatest entries of the tables: no score that the tables can give together
/// is above it.
pub open spec fn total_max(tables: Seq<Seq<Seq<u64>>>) -> nat
    decreases tables.len(),
{
    if tables.len() == 0 {
        0
    } else {
        total_max(tables.drop_last()) + table_max(tables.last())
    }
}

/// `row` and `column` name an entry of the table.
pub open spec fn in_domain(table: Seq<Seq<u64>>, row: int, column: int) -> bool {
    0 <= row < table.len() && 0 <= column < table[row].len()
}

/// Each of the first `count` tables has the entry that its value of the template and its
/// value of the probe name.
pub open spec fn selects_first(
    tables: Seq<Seq<Seq<u64>>>,
    template: Seq<u64>,
    probe: Seq<u64>,
    count: int,
) -> bool {
    &&& count <= tables.len()
    &&& count <= template.len()
    &&& count <= probe.len()
    &&& forall|t: int|
        0 <= t < count ==> in_domain(#[trigger] tables[t], template[t] as int, probe[t] as int)
}

/// Template and probe have a value for every table, and every table has the entry that the
/// two values name.
pub open spec fn selects(tables: Seq<Seq<Seq<u64>>>, template: Seq<u64>, probe: Seq<u64>) -> bool {
    &&& template.len() == tables.len()
    &&& probe.len() == tables.len()
    &&& selects_first(tables, template, probe, tables.len() as int)
}

/// The sum, over the first `count` tables, of the entry in the row of the template's value and
/// the column of the probe's value.
pub open spec fn score_of_first(
    tables: Seq<Seq<Seq<u64>>>,
    template: Seq<u64>,
    probe: Seq<u64>,
    count: nat,
) -> nat
    decreases count,
{
    if count == 0 {
        0
    } else {
        let t = count - 1;
        score_of_first(tables, template, probe, t as nat) + tables[t][template[t] as int][probe[t]
            as int] as nat
    }
}

/// The score of a probe against a template: the sum over all tables of the selected entries.
pub open spec fn score(tables: Seq<Seq<Seq<u64>>>, template: Seq<u64>, probe: Seq<u64>) -> nat {
    score_of_first(tables, template, probe, tables.len())
}

/// The same sum over tables as they are stored, with signed entries.
pub open spec fn raw_score_of_first(
    tables: Seq<Seq<Seq<i64>>>,
    template: Seq<u64>,
    probe: Seq<u64>,
    count: nat,
) -> int
    decreases count,
{
    if count == 0 {
        0
    } else {
        let t = count - 1;
        raw_score_of_first(tables, template, probe, t as nat) + tables[t][template[t] as int][probe[t] as int]
    }
}

/// The score of a probe against a template on the tables as they are stored.
pub open spec fn raw_score(tables: Seq<Seq<Seq<i64>>>, template: Seq<u64>, probe: Seq<u64>) -> int {
    raw_score_of_first(tables, template, probe, tables.len())
}

/// No entry of a row is above `row_max`, and a row that is not empty has an entry that equals
/// it.
pub proof fn lemma_row_max(row: Seq<u64>)
    ensures
        forall|c: int| 0 <= c < row.len() ==> (#[trigger] row[c]) <= row_max(row),
        row.len() > 0 ==> exists|c: int| 0 <= c < row.len() && (#[trigger] row[c]) == row_max(row),
        row_max(row) <= u64::MAX,
    decreases row.len(),
{
    if row.len() > 0 {
        let front = row.drop_last();
        lemma_row_max(front);
        assert forall|c: int| 0 <= c < row.len() implies (#[trigger] row[c]) <= row_max(row) by {
            if c < front.len() {
                assert(front[c] == row[c]);
            }
        }
        if row_max(front) < row.last() || front.len() == 0 {
            assert(front.len() == 0 ==> row_max(front) == 0);
            assert(row[row.len() - 1] == row_max(row));
        } else {
            let c = choose|c: int| 0 <= c < front.len() && (#[trigger] front[c]) == row_max(front);
            assert(row[c] == front[c]);
        }
    }
}

/// No entry of a table is above `table_max`, which is a `u64`; a table that has an entry has
/// one that equals it.
pub proof fn lemma_table_max(table: Seq<Seq<u64>>)
    ensures
        forall|r: int, c: int|
            0 <= r < table.len() && 0 <= c < table[r].len() ==> (#[trigger] table[r][c])
                <= table_max(table),
        table_max(table) <= u64::MAX,
        table_max(table) > 0 ==> exists|r: int, c: int|
            0 <= r < table.len() && 0 <= c < table[r].len() && (#[trigger] table[r][c])
                == table_max(table),
    decreases table.len(),
{
    if table.len() > 0 {
        let front = table.drop_last();
        lemma_table_max(front);
        lemma_row_max(table.last());
        assert forall|r: int, c: int|
            0 <= r < table.len() && 0 <= c < table[r].len() implies (#[trigger] table[r][c])
            <= table_max(table) by {
            if r < front.len() {
                assert(front[r] == table[r]);
                assert(front[r][c] <= table_max(front));
            }
        }
        if table_max(table) > 0 {
            if table_max(front) < row_max(table.last()) {
                let last = table.last();
                let c = choose|c: int| 0 <= c < last.len() && (#[trigger] last[c]) == row_max(last);
                assert(table[table.len() - 1][c] == table_max(table));
            } else {
                let (r, c) = choose|r: int, c: int|
                    0 <= r < front.len() && 0 <= c < front[r].len() && (#[trigger] front[r][c])
                        == table_max(front);
                assert(table[r] == front[r]);
                assert(table[r][c] == table_max(table));
            }
        }
    }
}

/// The sum of the greatest entries of the first tables is not above that of all of them.
pub proof fn lemma_total_max_of_prefix(tables: Seq<Seq<Seq<u64>>>, count: int)
    requires
        0 <= count <= tables.len(),
    ensures
        total_max(tables.take(count)) <= total_max(tables),
        count < tables.len() ==> total_max(tables.take(count)) + table_max(tables[count])
            <= total_max(tables),
    decreases tables.len() - count,
{
    if count < tables.len() {
        let next = tables.take(count + 1);
        assert(next.drop_last() =~= tables.take(count));
        assert(next.last() == tables[count]);
        lemma_total_max_of_prefix(tables, count + 1);
    } else {
        assert(tables.take(count) =~= tables);
    }
}

/// No table's greatest entry is above the sum of all of them.
pub proof fn lemma_table_max_below_total(tables: Seq<Seq<Seq<u64>>>, t: int)
    requires
        0 <= t < tables.len(),
    ensures
        table_max(tables[t]) <= total_max(tables),
{
    lemma_total_max_of_prefix(tables, t);
}

/// No score is above the sum of the greatest entries.
pub proof fn lemma_score_below_total_max(
    tables: Seq<Seq<Seq<u64>>>,
    template: Seq<u64>,
    probe: Seq<u64>,
)
    requires
        selects(tables, template, probe),
    ensures
        score(tables, template, probe) <= total_max(tables),
{
    lemma_partial_score_below_total_max(tables, template, probe, tables.len());
    assert(tables.take(tables.len() as int) =~= tables);
}

/// The score over the first tables is not above the sum of their greatest entries.
pub proof fn lemma_partial_score_below_total_max(
    tables: Seq<Seq<Seq<u64>>>,
    template: Seq<u64>,
    probe: Seq<u64>,
    count: nat,
)
    requires
        selects_first(tables, template, probe, count as int),
    ensures
        score_of_first(tables, template, probe, count) <= total_max(tables.take(count as int)),
        score_of_first(tables, template, probe, count) <= total_max(tables),
    decreases count,
{
    lemma_total_max_of_prefix(tables, count as int);
    if count > 0 {
        let t = count - 1;
        lemma_partial_score_below_total_max(tables, template, probe, t as nat);
        let upto = tables.take(count as int);
        assert(upto.drop_last() =~= tables.take(t));
        assert(upto.last() == tables[t]);
        assert(in_domain(tables[t], template[t] as int, probe[t] as int));
        lemma_table_max(tables[t]);
    } else {
        assert(tables.take(0).len() == 0);
    }
}

/// Offsets and scores: on sound tables, the score on the normalized tables is the score on the
/// stored tables less the sum of the offsets. So a stored score reaches a threshold exactly
/// when the normalized score reaches the threshold less the sum of the offsets.
pub proof fn lemma_offset_invariant(
    raw_tables: Seq<Seq<Seq<i64>>>,
    template: Seq<u64>,
    probe: Seq<u64>,
    raw_threshold: int,
)
    requires
        all_sound(raw_tables),
        selects(normalized(raw_tables), template, probe),
    ensures
        score(normalized(raw_tables), template, probe) == raw_score(raw_tables, template, probe)
            - global_offset(raw_tables),
        raw_score(raw_tables, template, probe) >= raw_threshold <==> score(
            normalized(raw_tables),
            template,
            probe,
        ) >= raw_threshold - global_offset(raw_tables),
{
    lemma_offset_of_first(raw_tables, template, probe, raw_tables.len());
    assert(raw_tables.take(raw_tables.len() as int) =~= raw_tables);
}

proof fn lemma_offset_of_first(
    raw_tables: Seq<Seq<Seq<i64>>>,
    template: Seq<u64>,
    probe: Seq<u64>,
    count: nat,
)
    requires
        all_sound(raw_tables),
        selects(normalized(raw_tables), template, probe),
        count <= raw_tables.len(),
    ensures
        score_of_first(normalized(raw_tables), template, probe, count) == raw_score_of_first(
            raw_tables,
            template,
            probe,
            count,
        ) - global_offset(raw_tables.take(count as int)),
    decreases count,
{
    if count > 0 {
        let t = count - 1;
        lemma_offset_of_first(raw_tables, template, probe, t as nat);
        let upto = raw_tables.take(count as int);
        assert(upto.drop_last() =~= raw_tables.take(t));
        assert(upto.last() == raw_tables[t]);
        assert(in_domain(normalized(raw_tables)[t], template[t] as int, probe[t] as int));
        lemma_normalized_entry(raw_tables, t, template[t] as int, probe[t] as int);
    } else {
        assert(raw_tables.take(0).len() == 0);
    }
}

/// The greatest entry of `table`; 0 where it has no entry.
pub fn max_entry(table: &Vec<Vec<u64>>) -> (max: u64)
    ensures
        max == table_max(table.deep_view()),
{
    let ghost model = table.deep_view();
    let mut max: u64 = 0;
    let mut r: usize = 0;
    assert(model.take(0) =~= Seq::<Seq<u64>>::empty());
    while r < table.len()
        invariant
            model == table.deep_view(),
            r <= table.len(),
            max == table_max(model.take(r as int)),
        decreases table.len() - r,
    {
        let row = &table[r];
        let mut greatest: u64 = 0;
        let mut c: usize = 0;
        assert(row@.take(0) =~= Seq::<u64>::empty());
        while c < row.len()
            invariant
                c <= row.len(),
                greatest == row_max(row@.take(c as int)),
            decreases row.len() - c,
        {
            proof {
                let next = row@.take(c + 1);
                assert(next.drop_last() =~= row@.take(c as int));
                assert(next.last() == row[c as int]);
            }
            if row[c] > greatest {
                greatest = row[c];
            }
            c = c + 1;
        }
        proof {
            assert(row@.take(c as int) =~= row@);
            let next = model.take(r + 1);
            assert(next.drop_last() =~= model.take(r as int));
            assert(next.last() == row@);
        }
        if greatest > max {
            max = greatest;
        }
        r = r + 1;
    }
    assert(model.take(r as int) =~= model);
    max
}

} // verus!
