//! Places in the output buffer. Every table gets a block of as many places as the sum of all
//! scores can have digits; digit `d` of table `t` goes to place `d` of block `t`. Places of
//! one digit position then stand at the same distance from the start of their blocks, and
//! adding the blocks place by place, with carries, gives the digits of the score.

use crate::digits::{
    as_nats, digit_length, is_representable, lemma_digit_length_is_monotonic, length_in_base,
    representable,
};
use crate::error::PlanError;
use crate::tables::{has_entries, lemma_table_max_below_total, max_entry, table_max, total_max};
use vstd::prelude::*;

verus! {

/// What keeps a table from being sized, if anything: it has no entry, or its greatest entry
/// cannot be written in the digits allotted to it.
pub open spec fn sizing_defect(table: Seq<Seq<u64>>, base: nat) -> Option<PlanError> {
    if !has_entries(table) {
        Some(PlanError::EmptyTable)
    } else if !representable(table_max(table), base) {
        Some(PlanError::DigitOverflow)
    } else {
        None
    }
}

/// Among the first `count` tables none is kept from being sized.
pub open spec fn all_sized_before(tables: Seq<Seq<Seq<u64>>>, base: nat, count: int) -> bool {
    forall|t: int| 0 <= t < count ==> sizing_defect(#[trigger] tables[t], base) is None
}

/// `error` is what keeps the first table that cannot be sized from it.
pub open spec fn is_first_sizing_defect(
    tables: Seq<Seq<Seq<u64>>>,
    base: nat,
    error: PlanError,
) -> bool {
    exists|t: int|
        0 <= t < tables.len() && sizing_defect(#[trigger] tables[t], base) == Some(error)
            && all_sized_before(tables, base, t)
}

/// The number of digits in which the entries of a table are written: the digit length of its
/// greatest entry.
pub open spec fn decomp_length(table: Seq<Seq<u64>>, base: nat) -> nat {
    digit_length(table_max(table), base)
}

/// The number of digits of the greatest score that the tables can give together, which is
/// the number of places in the block of each table.
pub open spec fn sum_length(tables: Seq<Seq<Seq<u64>>>, base: nat) -> nat {
    digit_length(total_max(tables), base)
}

/// What is wrong with the tables taken together, where each of them can be sized: the sum
/// of their greatest entries is no `u64`; or it cannot be written in the digits allotted to it;
/// or the blocks of all tables have more places than a `usize` counts.
pub open spec fn sum_defect(tables: Seq<Seq<Seq<u64>>>, base: nat) -> Option<PlanError> {
    if total_max(tables) > u64::MAX {
        Some(PlanError::Overflow)
    } else if !representable(total_max(tables), base) {
        Some(PlanError::DigitOverflow)
    } else if tables.len() * sum_length(tables, base) > usize::MAX {
        Some(PlanError::Overflow)
    } else {
        None
    }
}

/// The place of digit `digit` of table `table`, with blocks of `stride` places.
pub open spec fn slot(table: nat, digit: nat, stride: nat) -> nat {
    table * stride + digit
}

/// The places in the order in which the digits are looked up: table after table, and for each
/// table its digits from the least significant on.
pub open spec fn slot_map(lengths: Seq<usize>, stride: nat) -> Seq<nat>
    decreases lengths.len(),
{
    if lengths.len() == 0 {
        Seq::empty()
    } else {
        slot_map(lengths.drop_last(), stride) + Seq::new(
            lengths.last() as nat,
            |d: int| slot((lengths.len() - 1) as nat, d as nat, stride),
        )
    }
}

/// The number of digits that are looked up for the first `count` tables.
pub open spec fn lookups_before(lengths: Seq<usize>, count: nat) -> nat
    decreases count,
{
    if count == 0 {
        0
    } else {
        lookups_before(lengths, (count - 1) as nat) + lengths[count - 1] as nat
    }
}

/// Two digits have the same place only if they are the same digit of the same table: places
/// never collide. A place tells its table and its digit position, so digits of one position
/// stand at the same place of their blocks.
pub proof fn lemma_slots_are_aligned(
    first_table: nat,
    first_digit: nat,
    second_table: nat,
    second_digit: nat,
    stride: nat,
)
    requires
        first_digit < stride,
        second_digit < stride,
    ensures
        slot(first_table, first_digit, stride) == slot(second_table, second_digit, stride) <==> (
        first_table == second_table && first_digit == second_digit),
        slot(first_table, first_digit, stride) % stride == first_digit,
        slot(first_table, first_digit, stride) / stride == first_table,
        first_table < second_table ==> slot(first_table, first_digit, stride) < slot(
            second_table,
            second_digit,
            stride,
        ),
{
    let s = stride as int;
    vstd::arithmetic::div_mod::lemma_fundamental_div_mod_converse(
        slot(first_table, first_digit, stride) as int,
        s,
        first_table as int,
        first_digit as int,
    );
    vstd::arithmetic::div_mod::lemma_fundamental_div_mod_converse(
        slot(second_table, second_digit, stride) as int,
        s,
        second_table as int,
        second_digit as int,
    );
    if first_table < second_table {
        assert((first_table + 1) * s <= second_table * s) by (nonlinear_arith)
            requires
                first_table + 1 <= second_table,
                s >= 0,
        ;
        assert((first_table + 1) * s == first_table * s + s) by (nonlinear_arith);
    }
}

/// Two tables never have the place of one and the same digit position in common: with blocks
/// that are not empty, the places of a digit position are the same only if the tables are.
pub proof fn lemma_slots_of_one_digit_differ(
    first_table: nat,
    second_table: nat,
    digit: nat,
    stride: nat,
)
    requires
        stride > 0,
    ensures
        slot(first_table, digit, stride) == slot(second_table, digit, stride) <==> first_table
            == second_table,
{
    if first_table < second_table {
        assert(first_table * stride < second_table * stride) by (nonlinear_arith)
            requires
                first_table < second_table,
                stride > 0,
        ;
    } else if second_table < first_table {
        assert(second_table * stride < first_table * stride) by (nonlinear_arith)
            requires
                second_table < first_table,
                stride > 0,
        ;
    }
}

/// The places of one table follow one another in the order of its digits, and every place
/// lies within the output buffer of `tables * stride` places.
pub proof fn lemma_slots_are_contiguous(table: nat, digit: nat, tables: nat, stride: nat)
    requires
        table < tables,
        digit < stride,
    ensures
        slot(table, digit, stride) < tables * stride,
        slot(table, digit + 1, stride) == slot(table, digit, stride) + 1,
        slot(table, 0, stride) == table * stride,
{
    assert((table + 1) * stride <= tables * stride) by (nonlinear_arith)
        requires
            table + 1 <= tables,
    ;
    assert((table + 1) * stride == table * stride + stride) by (nonlinear_arith);
}

/// No table needs more digits than the sum: the digits of every table have a place in its
/// block.
pub proof fn lemma_decomp_length_below_sum_length(tables: Seq<Seq<Seq<u64>>>, base: nat, t: int)
    requires
        0 <= t < tables.len(),
    ensures
        decomp_length(tables[t], base) <= sum_length(tables, base),
{
    lemma_table_max_below_total(tables, t);
    lemma_digit_length_is_monotonic(table_max(tables[t]), total_max(tables), base);
}

/// The places in the order of the lookups: the digits of table `t` come after all digits of
/// the tables before it, and digit `d` of table `t` has the place `slot(t, d, stride)`.
pub proof fn lemma_slot_map_entry(lengths: Seq<usize>, stride: nat, t: nat, d: nat)
    requires
        t < lengths.len(),
        d < lengths[t as int],
    ensures
        slot_map(lengths, stride).len() == lookups_before(lengths, lengths.len()),
        lookups_before(lengths, t) + d < slot_map(lengths, stride).len(),
        slot_map(lengths, stride)[(lookups_before(lengths, t) + d) as int] == slot(t, d, stride),
    decreases lengths.len(),
{
    let front = lengths.drop_last();
    let last = (lengths.len() - 1) as nat;
    lemma_slot_map_len(front, stride);
    lemma_slot_map_len(lengths, stride);
    lemma_lookups_before_prefix(lengths, front, last);
    if t < last {
        lemma_lookups_before_prefix(lengths, front, t);
        lemma_slot_map_entry(front, stride, t, d);
    }
}

/// Where no table has more digits than a block has places, the places grow along the order
/// of the lookups, so that no two lookups have the same place, and all of them lie within
/// the output buffer of one block for each table.
pub proof fn lemma_slot_map_increases(lengths: Seq<usize>, stride: nat)
    requires
        forall|t: int| 0 <= t < lengths.len() ==> (#[trigger] lengths[t]) <= stride,
    ensures
        forall|i: int, j: int|
            0 <= i < j < slot_map(lengths, stride).len() ==> (#[trigger] slot_map(
                lengths,
                stride,
            )[i]) < (#[trigger] slot_map(lengths, stride)[j]),
        forall|i: int|
            0 <= i < slot_map(lengths, stride).len() ==> (#[trigger] slot_map(lengths, stride)[i])
                < lengths.len() * stride,
    decreases lengths.len(),
{
    if lengths.len() > 0 {
        let front = lengths.drop_last();
        let last = (lengths.len() - 1) as nat;
        let head = slot_map(front, stride);
        let all = slot_map(lengths, stride);
        lemma_slot_map_increases(front, stride);
        assert((last + 1) * stride == last * stride + stride) by (nonlinear_arith);
        assert forall|i: int| 0 <= i < all.len() implies (#[trigger] all[i]) < lengths.len()
            * stride && (i < head.len() ==> all[i] == head[i] && all[i] < last * stride) && (i
            >= head.len() ==> all[i] == slot(last, (i - head.len()) as nat, stride)) by {
            if i < head.len() {
                assert(head[i] < front.len() * stride);
            }
        }
        assert forall|i: int, j: int| 0 <= i < j < all.len() implies (#[trigger] all[i]) < (
        #[trigger] all[j]) by {
            if j < head.len() {
                assert(head[i] < head[j]);
            }
        }
    }
}

/// There are as many places in the order of the lookups as there are digits to look up.
pub proof fn lemma_slot_map_len(lengths: Seq<usize>, stride: nat)
    ensures
        slot_map(lengths, stride).len() == lookups_before(lengths, lengths.len()),
    decreases lengths.len(),
{
    if lengths.len() > 0 {
        let front = lengths.drop_last();
        lemma_slot_map_len(front, stride);
        lemma_lookups_before_prefix(lengths, front, front.len());
    }
}

/// The number of lookups before a table does not depend on the tables that come after it.
pub proof fn lemma_lookups_before_prefix(lengths: Seq<usize>, front: Seq<usize>, count: nat)
    requires
        count <= front.len() <= lengths.len(),
        forall|i: int| 0 <= i < front.len() ==> front[i] == lengths[i],
    ensures
        lookups_before(front, count) == lookups_before(lengths, count),
    decreases count,
{
    if count > 0 {
        lemma_lookups_before_prefix(lengths, front, (count - 1) as nat);
    }
}

/// The places for the digits of all tables.
///
/// Gives the place of every digit in the order of the lookups (table after table, digit
/// after digit), the number of digits of every table, and the number of places in the block
/// of each table, which is the number of digits of the sum of the greatest entries.
///
/// Fails on the first table that cannot be sized: with `EmptyTable` where it has no entry,
/// else with `DigitOverflow` where its greatest entry cannot be written in the digits allotted
/// to it (in a base below two). Where every table can be sized, it fails with what is wrong
/// with the tables taken together: see `sum_defect`.
pub fn get_lut_output_indices(tables: &[Vec<Vec<u64>>], decomp_base: u64) -> (outcome: Result<
    (Vec<u64>, Vec<usize>, usize),
    PlanError,
>)
    ensures
        match outcome {
            Ok((lut_output_indices, decomp_lengths, sum_decomp_length)) => {
                &&& all_sized_before(tables.deep_view(), decomp_base as nat, tables.len() as int)
                &&& sum_defect(tables.deep_view(), decomp_base as nat) is None
                &&& sum_decomp_length == sum_length(tables.deep_view(), decomp_base as nat)
                &&& decomp_lengths.len() == tables.len()
                &&& forall|t: int|
                    0 <= t < tables.len() ==> (#[trigger] decomp_lengths[t]) == decomp_length(
                        tables.deep_view()[t],
                        decomp_base as nat,
                    )
                &&& as_nats(lut_output_indices@) == slot_map(
                    decomp_lengths@,
                    sum_decomp_length as nat,
                )
                &&& forall|t: int|
                    0 <= t < tables.len() ==> (#[trigger] decomp_lengths[t]) <= sum_decomp_length
                &&& forall|i: int, j: int|
                    0 <= i < j < lut_output_indices.len() ==> (#[trigger] lut_output_indices[i])
                        < (#[trigger] lut_output_indices[j])
                &&& forall|i: int|
                    0 <= i < lut_output_indices.len() ==> (#[trigger] lut_output_indices[i])
                        < tables.len() * sum_decomp_length
            },
            Err(error) => {
                ||| is_first_sizing_defect(tables.deep_view(), decomp_base as nat, error)
                ||| (all_sized_before(tables.deep_view(), decomp_base as nat, tables.len() as int)
                    && sum_defect(tables.deep_view(), decomp_base as nat) == Some(error))
            },
        },
{
    let ghost model = tables.deep_view();
    let ghost base = decomp_base as nat;
    let count: usize = tables.len();

    let mut max_values: Vec<u64> = Vec::new();
    let mut t: usize = 0;
    while t < count
        invariant
            model == tables.deep_view(),
            count == tables.len(),
            base == decomp_base,
            t <= count,
            max_values.len() == t,
            all_sized_before(model, base, t as int),
            forall|i: int| 0 <= i < t ==> (#[trigger] max_values[i]) == table_max(model[i]),
        decreases count - t,
    {
        let table = &tables[t];
        assert(table.deep_view() == model[t as int]);
        assert(table.len() > 0 ==> table[0].deep_view() == model[t as int][0]);
        if table.len() == 0 || table[0].len() == 0 {
            return Err(PlanError::EmptyTable);
        }
        let max_value: u64 = max_entry(table);
        if !is_representable(max_value, decomp_base) {
            return Err(PlanError::DigitOverflow);
        }
        max_values.push(max_value);
        t = t + 1;
    }

    let mut max_total_sum: u64 = 0;
    let mut decomp_lengths: Vec<usize> = Vec::new();
    let mut t: usize = 0;
    assert(model.take(0) =~= Seq::<Seq<Seq<u64>>>::empty());
    while t < count
        invariant
            model == tables.deep_view(),
            all_sized_before(model, base, count as int),
            count == model.len(),
            max_values.len() == count,
            base == decomp_base,
            t <= count,
            forall|i: int| 0 <= i < count ==> (#[trigger] max_values[i]) == table_max(model[i]),
            max_total_sum == total_max(model.take(t as int)),
            decomp_lengths.len() == t,
            forall|i: int|
                0 <= i < t ==> (#[trigger] decomp_lengths[i]) == decomp_length(model[i], base),
        decreases count - t,
    {
        proof {
            let next = model.take(t + 1);
            assert(next.drop_last() =~= model.take(t as int));
            assert(next.last() == model[t as int]);
            crate::tables::lemma_total_max_of_prefix(model, t as int);
        }
        let max_value: u64 = max_values[t];
        match max_total_sum.checked_add(max_value) {
            Some(sum) => {
                max_total_sum = sum;
            },
            None => {
                return Err(PlanError::Overflow);
            },
        }
        decomp_lengths.push(length_in_base(max_value, decomp_base));
        t = t + 1;
    }
    assert(model.take(count as int) =~= model);
    if !is_representable(max_total_sum, decomp_base) {
        return Err(PlanError::DigitOverflow);
    }
    let sum_decomp_length: usize = length_in_base(max_total_sum, decomp_base);
    let places: usize = match count.checked_mul(sum_decomp_length) {
        Some(places) => places,
        None => {
            return Err(PlanError::Overflow);
        },
    };

    let ghost stride = sum_decomp_length as nat;
    let mut lut_output_indices: Vec<u64> = Vec::new();
    let mut idx: usize = 0;
    assert(decomp_lengths@.take(0) =~= Seq::<usize>::empty());
    while idx < count
        invariant
            count == model.len(),
            decomp_lengths.len() == count,
            stride == sum_decomp_length,
            stride == sum_length(model, base),
            places == count * sum_decomp_length,
            idx <= count,
            forall|i: int|
                0 <= i < count ==> (#[trigger] decomp_lengths[i]) == decomp_length(model[i], base),
            as_nats(lut_output_indices@) == slot_map(decomp_lengths@.take(idx as int), stride),
        decreases count - idx,
    {
        let len: usize = decomp_lengths[idx];
        let ghost done = slot_map(decomp_lengths@.take(idx as int), stride);
        proof {
            lemma_decomp_length_below_sum_length(model, base, idx as int);
        }
        let mut v: usize = 0;
        while v < len
            invariant
                idx < count,
                len <= sum_decomp_length,
                stride == sum_decomp_length,
                places == count * sum_decomp_length,
                v <= len,
                as_nats(lut_output_indices@) == done + Seq::new(
                    v as nat,
                    |d: int| slot(idx as nat, d as nat, stride),
                ),
            decreases len - v,
        {
            proof {
                lemma_slots_are_contiguous(idx as nat, v as nat, count as nat, stride);
            }
            let place: usize = idx * sum_decomp_length + v;
            let ghost before = lut_output_indices@;
            lut_output_indices.push(place as u64);
            assert(as_nats(lut_output_indices@) =~= done + Seq::new(
                (v + 1) as nat,
                |d: int| slot(idx as nat, d as nat, stride),
            )) by {
                assert(as_nats(lut_output_indices@) =~= as_nats(before).push(place as nat));
            }
            v = v + 1;
        }
        proof {
            let next = decomp_lengths@.take(idx + 1);
            assert(next.drop_last() =~= decomp_lengths@.take(idx as int));
            assert(next.last() == len);
        }
        idx = idx + 1;
    }
    proof {
        assert(decomp_lengths@.take(count as int) =~= decomp_lengths@);
        assert forall|t: int| 0 <= t < count implies (#[trigger] decomp_lengths[t])
            <= sum_decomp_length by {
            lemma_decomp_length_below_sum_length(model, base, t);
        }
        lemma_slot_map_increases(decomp_lengths@, stride);
        let places = slot_map(decomp_lengths@, stride);
        assert forall|i: int| 0 <= i < lut_output_indices.len() implies (
        #[trigger] lut_output_indices[i]) == places[i] by {
            assert(as_nats(lut_output_indices@)[i] == places[i]);
        }
    }
    Ok((lut_output_indices, decomp_lengths, sum_decomp_length))
}

} // verus!
