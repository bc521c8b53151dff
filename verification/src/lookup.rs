//! Lookup tables for a template. The template names one row in every score table. Each entry
//! of that row is written in digits, and every digit position becomes a lookup table of its
//! own, which a probe's value indexes: looking up all positions of a table and reading the
//! digits back gives the entry that template and probe select.

use crate::digits::{
    as_nats, decompose_to_base, digit_at, digits_of, is_representable,
    lemma_decompose_round_trip, lemma_digit_below_base, lemma_digit_length_is_minimal,
    lemma_representable, length_in_base, power, recompose,
};
use crate::error::PlanError;
use crate::slots::{decomp_length, sizing_defect};
use crate::tables::{lemma_table_max, max_entry, table_max};
use crate::transpose::{flip_vectors, lemma_column_of_matrix, rows_of};
use vstd::prelude::*;

verus! {

/// What keeps a table from getting lookup tables for `row` in `base`, if anything: what
/// keeps it from being sized; or, where nothing does, that it has no such row.
pub open spec fn lut_defect(table: Seq<Seq<u64>>, row: int, base: nat) -> Option<PlanError> {
    if sizing_defect(table, base) is Some {
        sizing_defect(table, base)
    } else if row >= table.len() {
        Some(PlanError::IndexOutOfDomain)
    } else {
        None
    }
}

/// Among the first `count` tables none is kept from getting its lookup tables.
pub open spec fn no_lut_defect_before(
    tables: Seq<Seq<Seq<u64>>>,
    template: Seq<u64>,
    base: nat,
    count: int,
) -> bool {
    forall|t: int|
        0 <= t < count ==> lut_defect(#[trigger] tables[t], template[t] as int, base) is None
}

/// `error` is what keeps the first table that is kept from it from getting its lookup tables.
pub open spec fn is_first_lut_defect(
    tables: Seq<Seq<Seq<u64>>>,
    template: Seq<u64>,
    base: nat,
    error: PlanError,
) -> bool {
    exists|t: int|
        0 <= t < tables.len() && lut_defect(#[trigger] tables[t], template[t] as int, base) == Some(
            error,
        ) && no_lut_defect_before(tables, template, base, t)
}

/// The digits of every entry of a row: one sequence of `decomp_length` digits for each value
/// that a probe can take.
pub open spec fn row_digits(table: Seq<Seq<u64>>, row: int, base: nat) -> Seq<Seq<u64>> {
    Seq::new(
        table[row].len(),
        |p: int|
            Seq::new(
                decomp_length(table, base),
                |d: int| digit_at(table[row][p] as nat, base, d as nat) as u64,
            ),
    )
}

/// The lookup tables of a row: one for each digit position; the table of position `d` holds,
/// at the index of each value that a probe can take, digit `d` of the entry that the row has
/// for that value.
pub open spec fn row_luts(table: Seq<Seq<u64>>, row: int, base: nat) -> Seq<Seq<u64>> {
    Seq::new(
        decomp_length(table, base),
        |d: int|
            Seq::new(
                table[row].len(),
                |p: int| digit_at(table[row][p] as nat, base, d as nat) as u64,
            ),
    )
}

/// The digits of the rows that a template names, table by table.
pub open spec fn template_digits(
    tables: Seq<Seq<Seq<u64>>>,
    template: Seq<u64>,
    base: nat,
) -> Seq<Seq<Seq<u64>>> {
    Seq::new(tables.len(), |t: int| row_digits(tables[t], template[t] as int, base))
}

/// The lookup tables of the rows that a template names, table by table.
pub open spec fn template_luts(
    tables: Seq<Seq<Seq<u64>>>,
    template: Seq<u64>,
    base: nat,
) -> Seq<Seq<Seq<u64>>> {
    Seq::new(tables.len(), |t: int| row_luts(tables[t], template[t] as int, base))
}

/// What the lookup tables of a row give for the probe's value `column`: one digit for each
/// position.
pub open spec fn looked_up(luts: Seq<Seq<u64>>, column: int) -> Seq<u64> {
    Seq::new(luts.len(), |d: int| luts[d][column])
}

/// The lookup tables are faithful: for a table that can have them, what they give for a
/// probe's value are the digits of the entry that the row has for that value, each below the
/// base, and read back they are that entry.
pub proof fn lemma_luts_are_faithful(table: Seq<Seq<u64>>, row: int, base: nat, column: int)
    requires
        lut_defect(table, row, base) is None,
        0 <= row,
        0 <= column < table[row].len(),
    ensures
        row_luts(table, row, base).len() == decomp_length(table, base),
        as_nats(looked_up(row_luts(table, row, base), column)) == digits_of(
            table[row][column] as nat,
            base,
            decomp_length(table, base),
        ),
        forall|d: int|
            0 <= d < decomp_length(table, base) ==> (#[trigger] row_luts(
                table,
                row,
                base,
            )[d][column]) < base,
        recompose(as_nats(looked_up(row_luts(table, row, base), column)), base)
            == table[row][column],
{
    let entry = table[row][column] as nat;
    let length = decomp_length(table, base);
    let luts = row_luts(table, row, base);
    lemma_table_max(table);
    lemma_representable(table_max(table), base);
    assert(base >= 1);
    assert forall|d: int| 0 <= d < length implies digit_at(entry, base, d as nat) < base && (
    #[trigger] luts[d][column]) == digit_at(entry, base, d as nat) by {
        lemma_digit_below_base(entry, base, d as nat);
        assert(table[row][column] <= table_max(table));
    }
    assert(as_nats(looked_up(luts, column)) =~= digits_of(entry, base, length));
    assert(entry < power(base, length)) by {
        assert(table[row][column] <= table_max(table));
    }
    lemma_decompose_round_trip(entry, base, length);
}

/// A lookup table as what can be asked: a function from an index to the entry at that index,
/// on the indices that the table has.
#[derive(Debug, Clone)]
pub struct RowLookupTable {
    entries: Vec<u64>,
}

impl View for RowLookupTable {
    type V = Seq<u64>;

    closed spec fn view(&self) -> Seq<u64> {
        self.entries@
    }
}

impl RowLookupTable {
    /// The lookup table with these entries.
    pub fn new(entries: Vec<u64>) -> (lut: RowLookupTable)
        ensures
            lut@ == entries@,
    {
        RowLookupTable { entries }
    }

    /// The number of indices that the table can be asked.
    pub fn domain_size(&self) -> (size: usize)
        ensures
            size == self@.len(),
    {
        self.entries.len()
    }

    /// The entries, in the order of the indices.
    pub fn entries(&self) -> (entries: &[u64])
        ensures
            entries@ == self@,
    {
        self.entries.as_slice()
    }

    /// The entry at `index`. Fails with `IndexOutOfDomain` where the table has no such index.
    pub fn evaluate(&self, index: u64) -> (outcome: Result<u64, PlanError>)
        ensures
            match outcome {
                Ok(entry) => index < self@.len() && entry == self@[index as int],
                Err(error) => error == PlanError::IndexOutOfDomain && index >= self@.len(),
            },
    {
        if index < self.entries.len() as u64 {
            Ok(self.entries[index as usize])
        } else {
            Err(PlanError::IndexOutOfDomain)
        }
    }
}

/// Makes of every list of entries a lookup table that can be asked, in the order of the
/// lists.
pub fn luts_to_closures(luts: Vec<Vec<u64>>) -> (functions: Vec<RowLookupTable>)
    ensures
        functions.len() == luts.len(),
        forall|i: int| 0 <= i < luts.len() ==> (#[trigger] functions[i])@ == luts[i]@,
{
    let ghost lists = luts@;
    let mut functions: Vec<RowLookupTable> = Vec::new();
    for lut in rest: luts
        invariant
            lists == rest.seq(),
            functions.len() == rest.index(),
            forall|i: int| 0 <= i < functions.len() ==> (#[trigger] functions[i])@ == lists[i]@,
    {
        functions.push(RowLookupTable::new(lut));
    }
    functions
}

/// Writes the entries of the rows that the template names in digits: for each table, for each
/// value that a probe can take, the digits of the entry.
///
/// Fails on the first table that cannot have lookup tables, with what keeps it from them.
fn decompose_template(tables: &[Vec<Vec<u64>>], template: &[u64], base: u64) -> (outcome: Result<
    Vec<Vec<Vec<u64>>>,
    PlanError,
>)
    requires
        template.len() == tables.len(),
    ensures
        match outcome {
            Ok(decomposed) => {
                &&& no_lut_defect_before(
                    tables.deep_view(),
                    template@,
                    base as nat,
                    tables.len() as int,
                )
                &&& decomposed.deep_view() == template_digits(
                    tables.deep_view(),
                    template@,
                    base as nat,
                )
            },
            Err(error) => is_first_lut_defect(tables.deep_view(), template@, base as nat, error),
        },
{
    let ghost model = tables.deep_view();
    let mut decomposed: Vec<Vec<Vec<u64>>> = Vec::new();
    let mut t: usize = 0;
    while t < tables.len()
        invariant
            model == tables.deep_view(),
            template.len() == tables.len(),
            t <= tables.len(),
            decomposed.len() == t,
            no_lut_defect_before(model, template@, base as nat, t as int),
            forall|i: int|
                0 <= i < t ==> (#[trigger] decomposed[i]).deep_view() == row_digits(
                    model[i],
                    template[i] as int,
                    base as nat,
                ),
        decreases tables.len() - t,
    {
        let table = &tables[t];
        let ghost current = model[t as int];
        assert(table.deep_view() == current);
        assert(table.len() > 0 ==> table[0].deep_view() == current[0]);
        if table.len() == 0 || table[0].len() == 0 {
            return Err(PlanError::EmptyTable);
        }
        let max_value: u64 = max_entry(table);
        if !is_representable(max_value, base) {
            return Err(PlanError::DigitOverflow);
        }
        let length: usize = length_in_base(max_value, base);
        let index: u64 = template[t];
        if index >= table.len() as u64 {
            return Err(PlanError::IndexOutOfDomain);
        }
        let row = &table[index as usize];
        assert(row.deep_view() == current[index as int]);
        proof {
            lemma_representable(max_value as nat, base as nat);
        }
        let mut digits_of_row: Vec<Vec<u64>> = Vec::new();
        let mut p: usize = 0;
        while p < row.len()
            invariant
                base > 0,
                length == decomp_length(current, base as nat),
                0 <= index < current.len(),
                row.deep_view() == current[index as int],
                p <= row.len(),
                digits_of_row.len() == p,
                forall|i: int|
                    0 <= i < p ==> (#[trigger] digits_of_row[i])@ == row_digits(
                        current,
                        index as int,
                        base as nat,
                    )[i],
            decreases row.len() - p,
        {
            let digits = decompose_to_base(row[p], base, length);
            proof {
                let entry = row[p as int] as nat;
                let wanted = row_digits(current, index as int, base as nat)[p as int];
                assert(row[p as int] == current[index as int][p as int]);
                assert(digits@.len() == as_nats(digits@).len());
                assert forall|d: int| 0 <= d < length implies digits@[d] == wanted[d] by {
                    assert(as_nats(digits@)[d] == digits_of(entry, base as nat, length as nat)[d]);
                }
                assert(digits@ =~= wanted);
            }
            digits_of_row.push(digits);
            p = p + 1;
        }
        assert(digits_of_row.deep_view() =~~= row_digits(current, index as int, base as nat));
        decomposed.push(digits_of_row);
        t = t + 1;
    }
    assert(decomposed.deep_view() =~= template_digits(model, template@, base as nat));
    Ok(decomposed)
}

/// As many empty lookup tables as `count` says: the lookup tables of a row without entries.
fn empty_luts(count: usize) -> (luts: Vec<Vec<u64>>)
    ensures
        luts.len() == count,
        forall|d: int| 0 <= d < count ==> (#[trigger] luts[d])@.len() == 0,
{
    let mut luts: Vec<Vec<u64>> = Vec::new();
    while luts.len() < count
        invariant
            luts.len() <= count,
            forall|d: int| 0 <= d < luts.len() ==> (#[trigger] luts[d])@.len() == 0,
        decreases count - luts.len(),
    {
        luts.push(Vec::new());
    }
    luts
}

/// The lookup tables for a template: for each table, for each digit position, the table that
/// gives this digit of the entry in the template's row for every value that a probe can take.
///
/// Fails on the first table that cannot have lookup tables: with `EmptyTable` where it has no
/// entry, else with `DigitOverflow` where its greatest entry cannot be written in the digits
/// allotted to it (in a base below two), else with `IndexOutOfDomain` where it has no row for
/// the template's value.
pub fn make_row_based_luts(tables: &[Vec<Vec<u64>>], template: &[u64], base: u64) -> (outcome:
    Result<Vec<Vec<Vec<u64>>>, PlanError>)
    requires
        template.len() == tables.len(),
    ensures
        match outcome {
            Ok(luts) => {
                &&& no_lut_defect_before(
                    tables.deep_view(),
                    template@,
                    base as nat,
                    tables.len() as int,
                )
                &&& luts.deep_view() == template_luts(tables.deep_view(), template@, base as nat)
            },
            Err(error) => is_first_lut_defect(tables.deep_view(), template@, base as nat, error),
        },
{
    let ghost model = tables.deep_view();
    let decomposed = match decompose_template(tables, template, base) {
        Ok(decomposed) => decomposed,
        Err(error) => {
            return Err(error);
        },
    };
    let ghost digits = decomposed.deep_view();
    let mut luts: Vec<Vec<Vec<u64>>> = Vec::new();
    let mut t: usize = 0;
    for inner in rest: decomposed
        invariant
            model == tables.deep_view(),
            template.len() == tables.len(),
            no_lut_defect_before(model, template@, base as nat, tables.len() as int),
            digits == template_digits(model, template@, base as nat),
            digits.len() == rest.seq().len(),
            forall|i: int| 0 <= i < digits.len() ==> (#[trigger] rest.seq()[i]).deep_view() == digits[i],
            t == rest.index(),
            luts.len() == t,
            forall|i: int|
                0 <= i < t ==> (#[trigger] luts[i]).deep_view() == row_luts(
                    model[i],
                    template[i] as int,
                    base as nat,
                ),
    {
        let ghost current = model[t as int];
        let ghost row = template[t as int] as int;
        let ghost wanted = row_luts(current, row, base as nat);
        let ghost rows = rows_of(inner@);
        assert(lut_defect(model[t as int], template[t as int] as int, base as nat) is None);
        assert(inner.deep_view() == row_digits(current, row, base as nat));
        assert(rows =~~= row_digits(current, row, base as nat)) by {
            assert forall|p: int| 0 <= p < inner@.len() implies (#[trigger] rows[p])
                =~= inner.deep_view()[p] by {
                assert(inner@[p].deep_view() =~= inner@[p]@);
            }
        }
        if inner.len() == 0 {
            let table = &tables[t];
            assert(table.deep_view() == current);
            let length: usize = length_in_base(max_entry(table), base);
            let flipped = empty_luts(length);
            assert(flipped.deep_view() =~~= wanted);
            luts.push(flipped);
        } else {
            let flipped = flip_vectors(inner);
            proof {
                let length = decomp_length(current, base as nat);
                lemma_representable(table_max(current), base as nat);
                assert(forall|p: int| 0 <= p < rows.len() ==> (#[trigger] rows[p]).len() == length);
                assert(length >= 1) by {
                    if base >= 2 {
                        lemma_digit_length_is_minimal(table_max(current), base as nat);
                    }
                }
                lemma_column_of_matrix(rows, length, 0);
                assert forall|d: int| 0 <= d < length implies (#[trigger] flipped[d])@
                    =~= wanted[d] by {
                    lemma_column_of_matrix(rows, length, d);
                }
                assert(flipped.deep_view() =~~= wanted) by {
                    assert forall|d: int| 0 <= d < length implies (#[trigger] flipped[d]).deep_view()
                        =~= wanted[d] by {
                        assert(flipped[d].deep_view() =~= flipped[d]@);
                    }
                }
            }
            luts.push(flipped);
        }
        t = t + 1;
    }
    assert(luts.deep_view() =~= template_luts(model, template@, base as nat));
    Ok(luts)
}

} // verus!
