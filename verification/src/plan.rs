//! The plan of one attempt: everything that has to be known in the clear before a probe is
//! compared with a template under encryption.
//!
//! The plan lists the lookups in one order: table after table, and for each table its digits
//! from the least significant on. The lookup tables, the probe's values that index them, and
//! the places that take their results all follow this order.

use crate::base::{get_min_decomp_base, min_decomp_base};
use crate::config::Config;
use crate::digits::{
    as_nats, decompose_to_base, digit_at, digits_of, lemma_decompose_round_trip,
    lemma_representable, recompose, representable,
};
use crate::error::PlanError;
use crate::lookup::{
    is_first_lut_defect, lemma_luts_are_faithful, looked_up, lut_defect, make_row_based_luts,
    no_lut_defect_before, row_luts, template_luts,
};
use crate::normalize::{all_sound, global_offset, is_first_defect, normalized, offset_helr_tables};
use crate::slots::{
    decomp_length, get_lut_output_indices, lemma_lookups_before_prefix, lemma_slot_map_entry,
    lookups_before, slot, slot_map, sum_defect, sum_length,
};
use crate::tables::{
    in_domain, lemma_offset_invariant, lemma_partial_score_below_total_max, raw_score, score,
    score_of_first, selects, selects_first, total_max,
};
use vstd::prelude::*;

verus! {

/// What is fixed before the encrypted part of an attempt begins.
#[derive(Debug, Clone)]
pub struct AttemptPlan {
    /// The threshold for the sum of the normalized scores: the dataset's threshold less the
    /// sum of the offsets.
    pub threshold: i64,
    /// The base in which scores are written.
    pub decomp_base: u64,
    /// For every lookup, the value of the probe that indexes its table.
    pub repeated_probes: Vec<u64>,
    /// For every lookup, its table.
    pub luts: Vec<Vec<u64>>,
    /// For every lookup, the place in the output buffer that takes its result.
    pub lut_output_indices: Vec<u64>,
    /// For every score table, the number of its digits, which is the number of its lookups.
    pub decomp_lengths: Vec<usize>,
    /// The number of places in the block of each table: the number of digits of the sum.
    pub sum_block_len: usize,
    /// The number of places in the output buffer: one block for each table.
    pub output_blocks: usize,
    /// The normalized score that probe and template have in the clear.
    pub expected: u64,
    /// The digits of that score, as many as a block has places.
    pub expected_decomp: Vec<u64>,
}

/// The lists of all tables, one after the other.
pub open spec fn flattened(luts: Seq<Seq<Seq<u64>>>) -> Seq<Seq<u64>>
    decreases luts.len(),
{
    if luts.len() == 0 {
        Seq::empty()
    } else {
        flattened(luts.drop_last()) + luts.last()
    }
}

/// Every value of the probe as many times as its table has digits, in the order of the
/// tables.
pub open spec fn repeated_probe(probe: Seq<u64>, lengths: Seq<usize>) -> Seq<u64>
    decreases lengths.len(),
{
    if lengths.len() == 0 {
        Seq::empty()
    } else {
        repeated_probe(probe, lengths.drop_last()) + Seq::new(
            lengths.last() as nat,
            |i: int| probe[lengths.len() - 1],
        )
    }
}

/// The base of an attempt: the one that the number of rows of the first table gives.
pub open spec fn attempt_base(raw_tables: Seq<Seq<Seq<i64>>>) -> nat {
    min_decomp_base(raw_tables[0].len())
}

/// An attempt can be planned: nothing of what `attempt_fails_with` lists is the case.
pub open spec fn plannable(
    raw_threshold: int,
    raw_tables: Seq<Seq<Seq<i64>>>,
    template: Seq<u64>,
    probe: Seq<u64>,
) -> bool {
    let tables = normalized(raw_tables);
    let base = attempt_base(raw_tables);
    &&& all_sound(raw_tables)
    &&& i64::MIN <= global_offset(raw_tables) <= i64::MAX
    &&& raw_tables.len() > 0
    &&& no_lut_defect_before(tables, template, base, tables.len() as int)
    &&& sum_defect(tables, base) is None
    &&& selects(tables, template, probe)
    &&& i64::MIN <= raw_threshold - global_offset(raw_tables) <= i64::MAX
}

/// Why an attempt cannot be planned. The reasons are tried in this order, and the first that
/// is the case decides:
/// a stored table has a defect (the first such table decides);
/// the sum of the offsets is no `i64` (`Overflow`);
/// there is no table (`NoTables`);
/// a normalized table cannot have lookup tables (the first such table decides);
/// the tables taken together cannot be sized (see `sum_defect`);
/// a value of the probe names no entry in the row of its table (`IndexOutOfDomain`);
/// the threshold less the sum of the offsets is no `i64` (`Overflow`).
pub open spec fn attempt_fails_with(
    raw_threshold: int,
    raw_tables: Seq<Seq<Seq<i64>>>,
    template: Seq<u64>,
    probe: Seq<u64>,
    error: PlanError,
) -> bool {
    let tables = normalized(raw_tables);
    let base = attempt_base(raw_tables);
    if !all_sound(raw_tables) {
        is_first_defect(raw_tables, error)
    } else if !(i64::MIN <= global_offset(raw_tables) <= i64::MAX) {
        error == PlanError::Overflow
    } else if raw_tables.len() == 0 {
        error == PlanError::NoTables
    } else if !no_lut_defect_before(tables, template, base, tables.len() as int) {
        is_first_lut_defect(tables, template, base, error)
    } else if sum_defect(tables, base) is Some {
        sum_defect(tables, base) == Some(error)
    } else if !selects(tables, template, probe) {
        error == PlanError::IndexOutOfDomain
    } else if !(i64::MIN <= raw_threshold - global_offset(raw_tables) <= i64::MAX) {
        error == PlanError::Overflow
    } else {
        false
    }
}

impl AttemptPlan {
    /// This is the plan for the attempt with these tables, as they are stored, this template
    /// and this probe, under this threshold.
    pub open spec fn is_plan_of(
        self,
        raw_threshold: int,
        raw_tables: Seq<Seq<Seq<i64>>>,
        template: Seq<u64>,
        probe: Seq<u64>,
    ) -> bool {
        let tables = normalized(raw_tables);
        let base = attempt_base(raw_tables);
        &&& self.threshold == raw_threshold - global_offset(raw_tables)
        &&& self.decomp_base == base
        &&& self.sum_block_len == sum_length(tables, base)
        &&& self.output_blocks == tables.len() * sum_length(tables, base)
        &&& self.decomp_lengths.len() == tables.len()
        &&& forall|t: int|
            0 <= t < tables.len() ==> (#[trigger] self.decomp_lengths[t]) == decomp_length(
                tables[t],
                base,
            )
        &&& as_nats(self.lut_output_indices@) == slot_map(
            self.decomp_lengths@,
            self.sum_block_len as nat,
        )
        &&& self.luts.deep_view() == flattened(template_luts(tables, template, base))
        &&& self.repeated_probes@ == repeated_probe(probe, self.decomp_lengths@)
        &&& self.expected == score(tables, template, probe)
        &&& as_nats(self.expected_decomp@) == digits_of(
            self.expected as nat,
            base,
            self.sum_block_len as nat,
        )
    }

    /// The threshold as the unsigned number that an unsigned sum is compared with: the
    /// threshold, or 0 where the threshold is negative. A sum, which is never negative,
    /// reaches the one exactly when it reaches the other.
    pub fn scalar_threshold(&self) -> (scalar: u64)
        ensures
            scalar == if self.threshold < 0 {
                0
            } else {
                self.threshold as int
            },
    {
        if self.threshold < 0 {
            0
        } else {
            self.threshold as u64
        }
    }

    /// Whether the digits of a sum that the encrypted part arrived at are the digits of the
    /// score in the clear.
    pub fn agrees_with(&self, clear_sum: &[u64]) -> (agrees: bool)
        ensures
            agrees == (clear_sum@ == self.expected_decomp@),
    {
        if clear_sum.len() != self.expected_decomp.len() {
            return false;
        }
        let mut i: usize = 0;
        while i < clear_sum.len()
            invariant
                clear_sum.len() == self.expected_decomp.len(),
                i <= clear_sum.len(),
                forall|k: int| 0 <= k < i ==> clear_sum[k] == self.expected_decomp[k],
            decreases clear_sum.len() - i,
        {
            if clear_sum[i] != self.expected_decomp[i] {
                return false;
            }
            i = i + 1;
        }
        assert(clear_sum@ =~= self.expected_decomp@);
        true
    }

    /// Whether the score in the clear reaches the threshold: what the encrypted comparison
    /// has to give.
    pub fn expected_decision(&self) -> (accept: bool)
        ensures
            accept == (self.expected >= self.threshold),
    {
        self.threshold < 0 || self.expected >= self.threshold as u64
    }
}

/// The lists of `luts` have as many entries together as their lengths say: the lookup with
/// the number `lookups_before(lengths, t) + d` is lookup `d` of table `t`.
pub proof fn lemma_flattened_entry(
    luts: Seq<Seq<Seq<u64>>>,
    lengths: Seq<usize>,
    t: nat,
    d: nat,
)
    requires
        lengths.len() == luts.len(),
        forall|i: int| 0 <= i < luts.len() ==> (#[trigger] luts[i]).len() == lengths[i],
        t < luts.len(),
        d < lengths[t as int],
    ensures
        flattened(luts).len() == lookups_before(lengths, lengths.len()),
        lookups_before(lengths, t) + d < flattened(luts).len(),
        flattened(luts)[(lookups_before(lengths, t) + d) as int] == luts[t as int][d as int],
    decreases luts.len(),
{
    let front = luts.drop_last();
    let front_lengths = lengths.drop_last();
    let last = (luts.len() - 1) as nat;
    lemma_flattened_len(front, front_lengths);
    lemma_flattened_len(luts, lengths);
    lemma_lookups_before_prefix(lengths, front_lengths, last);
    if t < last {
        lemma_lookups_before_prefix(lengths, front_lengths, t);
        lemma_flattened_entry(front, front_lengths, t, d);
    }
}

proof fn lemma_flattened_len(luts: Seq<Seq<Seq<u64>>>, lengths: Seq<usize>)
    requires
        lengths.len() == luts.len(),
        forall|i: int| 0 <= i < luts.len() ==> (#[trigger] luts[i]).len() == lengths[i],
    ensures
        flattened(luts).len() == lookups_before(lengths, lengths.len()),
    decreases luts.len(),
{
    if luts.len() > 0 {
        let front_lengths = lengths.drop_last();
        lemma_flattened_len(luts.drop_last(), front_lengths);
        lemma_lookups_before_prefix(lengths, front_lengths, front_lengths.len());
    }
}

/// In the repeated probe, the lookup with the number `lookups_before(lengths, t) + d` has the
/// probe's value for table `t`.
pub proof fn lemma_repeated_probe_entry(probe: Seq<u64>, lengths: Seq<usize>, t: nat, d: nat)
    requires
        t < lengths.len(),
        d < lengths[t as int],
    ensures
        repeated_probe(probe, lengths).len() == lookups_before(lengths, lengths.len()),
        lookups_before(lengths, t) + d < repeated_probe(probe, lengths).len(),
        repeated_probe(probe, lengths)[(lookups_before(lengths, t) + d) as int] == probe[t as int],
    decreases lengths.len(),
{
    let front = lengths.drop_last();
    let last = (lengths.len() - 1) as nat;
    lemma_repeated_probe_len(probe, front);
    lemma_repeated_probe_len(probe, lengths);
    lemma_lookups_before_prefix(lengths, front, last);
    if t < last {
        lemma_lookups_before_prefix(lengths, front, t);
        lemma_repeated_probe_entry(probe, front, t, d);
    }
}

proof fn lemma_repeated_probe_len(probe: Seq<u64>, lengths: Seq<usize>)
    ensures
        repeated_probe(probe, lengths).len() == lookups_before(lengths, lengths.len()),
    decreases lengths.len(),
{
    if lengths.len() > 0 {
        let front = lengths.drop_last();
        lemma_repeated_probe_len(probe, front);
        lemma_lookups_before_prefix(lengths, front, front.len());
    }
}

/// The three lists of a plan go together: lookup `d` of table `t` has, at one and the same
/// position of the three lists, the lookup table of digit `d` of the template's row, the
/// probe's value for table `t`, and the place of digit `d` in the block of table `t`. What
/// the lookup gives is digit `d` of the entry that template and probe select in table `t`.
pub proof fn lemma_plan_is_aligned(
    plan: AttemptPlan,
    raw_threshold: int,
    raw_tables: Seq<Seq<Seq<i64>>>,
    template: Seq<u64>,
    probe: Seq<u64>,
    t: nat,
    d: nat,
)
    requires
        plannable(raw_threshold, raw_tables, template, probe),
        plan.is_plan_of(raw_threshold, raw_tables, template, probe),
        t < raw_tables.len(),
        d < plan.decomp_lengths[t as int],
    ensures
        ({
            let k = (lookups_before(plan.decomp_lengths@, t) + d) as int;
            let tables = normalized(raw_tables);
            let base = attempt_base(raw_tables);
            let entry = tables[t as int][template[t as int] as int][probe[t as int] as int];
            &&& k < plan.luts.len() == plan.repeated_probes.len() == plan.lut_output_indices.len()
            &&& plan.luts.deep_view()[k] == row_luts(
                tables[t as int],
                template[t as int] as int,
                base,
            )[d as int]
            &&& plan.repeated_probes[k] == probe[t as int]
            &&& plan.lut_output_indices[k] == slot(t, d, plan.sum_block_len as nat)
            &&& plan.repeated_probes[k] < plan.luts.deep_view()[k].len()
            &&& plan.luts.deep_view()[k][plan.repeated_probes[k] as int]
                == digit_at(entry as nat, base, d)
        }),
{
    let tables = normalized(raw_tables);
    let base = attempt_base(raw_tables);
    let lengths = plan.decomp_lengths@;
    let luts = template_luts(tables, template, base);
    lemma_flattened_entry(luts, lengths, t, d);
    lemma_repeated_probe_entry(probe, lengths, t, d);
    lemma_slot_map_entry(lengths, plan.sum_block_len as nat, t, d);
    let k = (lookups_before(lengths, t) + d) as int;
    assert(as_nats(plan.lut_output_indices@)[k] == plan.lut_output_indices[k]);
    assert(in_domain(tables[t as int], template[t as int] as int, probe[t as int] as int));
    assert(lut_defect(tables[t as int], template[t as int] as int, base) is None);
    lemma_luts_are_faithful(
        tables[t as int],
        template[t as int] as int,
        base,
        probe[t as int] as int,
    );
    let row = row_luts(tables[t as int], template[t as int] as int, base);
    assert(as_nats(looked_up(row, probe[t as int] as int))[d as int] == digits_of(
        tables[t as int][template[t as int] as int][probe[t as int] as int] as nat,
        base,
        decomp_length(tables[t as int], base),
    )[d as int]);
}

/// What the lookups of the first `count` tables give for the probe, read back as numbers and
/// added up.
pub open spec fn looked_up_total(
    tables: Seq<Seq<Seq<u64>>>,
    template: Seq<u64>,
    probe: Seq<u64>,
    base: nat,
    count: nat,
) -> nat
    decreases count,
{
    if count == 0 {
        0
    } else {
        let t = count - 1;
        looked_up_total(tables, template, probe, base, t as nat) + recompose(
            as_nats(looked_up(row_luts(tables[t], template[t] as int, base), probe[t] as int)),
            base,
        )
    }
}

/// The lookups add up to the score: where an attempt can be planned, the digits that the
/// lookup tables give for the probe, read back table by table and added up, are the score
/// that template and probe have on the normalized tables.
pub proof fn lemma_lookups_add_up_to_the_score(
    raw_threshold: int,
    raw_tables: Seq<Seq<Seq<i64>>>,
    template: Seq<u64>,
    probe: Seq<u64>,
)
    requires
        plannable(raw_threshold, raw_tables, template, probe),
    ensures
        looked_up_total(
            normalized(raw_tables),
            template,
            probe,
            attempt_base(raw_tables),
            raw_tables.len(),
        ) == score(normalized(raw_tables), template, probe),
{
    lemma_lookups_of_first(
        normalized(raw_tables),
        template,
        probe,
        attempt_base(raw_tables),
        raw_tables.len(),
    );
}

proof fn lemma_lookups_of_first(
    tables: Seq<Seq<Seq<u64>>>,
    template: Seq<u64>,
    probe: Seq<u64>,
    base: nat,
    count: nat,
)
    requires
        no_lut_defect_before(tables, template, base, tables.len() as int),
        selects(tables, template, probe),
        count <= tables.len(),
    ensures
        looked_up_total(tables, template, probe, base, count) == score_of_first(
            tables,
            template,
            probe,
            count,
        ),
    decreases count,
{
    if count > 0 {
        let t = count - 1;
        lemma_lookups_of_first(tables, template, probe, base, t as nat);
        assert(in_domain(tables[t], template[t] as int, probe[t] as int));
        assert(lut_defect(tables[t], template[t] as int, base) is None);
        lemma_luts_are_faithful(tables[t], template[t] as int, base, probe[t] as int);
    }
}

/// What a plan expects is the score: the expected score is the stored score less the sum of
/// the offsets, its digits read back give it, and it reaches the plan's threshold exactly
/// when the stored score reaches the dataset's threshold.
pub proof fn lemma_plan_expects_the_score(
    plan: AttemptPlan,
    raw_threshold: int,
    raw_tables: Seq<Seq<Seq<i64>>>,
    template: Seq<u64>,
    probe: Seq<u64>,
)
    requires
        plannable(raw_threshold, raw_tables, template, probe),
        plan.is_plan_of(raw_threshold, raw_tables, template, probe),
    ensures
        plan.expected == raw_score(raw_tables, template, probe) - global_offset(raw_tables),
        recompose(as_nats(plan.expected_decomp@), plan.decomp_base as nat) == plan.expected,
        plan.expected >= plan.threshold <==> raw_score(raw_tables, template, probe)
            >= raw_threshold,
{
    let tables = normalized(raw_tables);
    let base = attempt_base(raw_tables);
    lemma_offset_invariant(raw_tables, template, probe, raw_threshold);
    crate::tables::lemma_score_below_total_max(tables, template, probe);
    lemma_representable(total_max(tables), base);
    lemma_decompose_round_trip(plan.expected as nat, base, plan.sum_block_len as nat);
}

/// `itertools::repeat_n`, collected into a vector: an iterator that gives `element` `n`
/// times and then ends, so that the vector holds `n` copies of `element`.
#[verifier::external_body]
fn repeat_n(element: u64, n: usize) -> (copies: Vec<u64>)
    ensures
        copies@ == Seq::new(n as nat, |i: int| element),
{
    itertools::repeat_n(element, n).collect()
}

/// Every value of the probe as many times as its table has digits.
fn repeat_probe(probe: &[u64], decomp_lengths: &Vec<usize>) -> (repeated_probes: Vec<u64>)
    requires
        probe.len() == decomp_lengths.len(),
    ensures
        repeated_probes@ == repeated_probe(probe@, decomp_lengths@),
{
    let mut repeated_probes: Vec<u64> = Vec::new();
    let mut t: usize = 0;
    assert(decomp_lengths@.take(0) =~= Seq::<usize>::empty());
    while t < decomp_lengths.len()
        invariant
            probe.len() == decomp_lengths.len(),
            t <= decomp_lengths.len(),
            repeated_probes@ == repeated_probe(probe@, decomp_lengths@.take(t as int)),
        decreases decomp_lengths.len() - t,
    {
        let mut copies = repeat_n(probe[t], decomp_lengths[t]);
        proof {
            let next = decomp_lengths@.take(t + 1);
            assert(next.drop_last() =~= decomp_lengths@.take(t as int));
            assert(next.last() == decomp_lengths[t as int]);
            assert(copies@ =~= Seq::new(next.last() as nat, |i: int| probe@[next.len() - 1]));
        }
        repeated_probes.append(&mut copies);
        t = t + 1;
    }
    assert(decomp_lengths@.take(t as int) =~= decomp_lengths@);
    repeated_probes
}

/// The lookup tables of all score tables in one list, in the order of the score tables.
pub fn flatten_luts(luts: Vec<Vec<Vec<u64>>>) -> (flat: Vec<Vec<u64>>)
    ensures
        flat.deep_view() == flattened(luts.deep_view()),
{
    let ghost model = luts.deep_view();
    let mut flat: Vec<Vec<u64>> = Vec::new();
    assert(model.take(0) =~= Seq::<Seq<Seq<u64>>>::empty());
    assert(flat.deep_view() =~= Seq::<Seq<u64>>::empty());
    for inner in rest: luts
        invariant
            model.len() == rest.seq().len(),
            forall|i: int|
                0 <= i < model.len() ==> (#[trigger] rest.seq()[i]).deep_view() == model[i],
            flat.deep_view() == flattened(model.take(rest.index())),
    {
        let ghost before = flat.deep_view();
        let ghost added = inner.deep_view();
        let mut inner = inner;
        proof {
            let next = model.take(rest.index() + 1);
            assert(next.drop_last() =~= model.take(rest.index()));
            assert(next.last() == added);
        }
        flat.append(&mut inner);
        assert(flat.deep_view() =~= before + added);
    }
    assert(model.take(model.len() as int) =~= model);
    flat
}

/// The score that template and probe select in the tables.
///
/// Fails with `IndexOutOfDomain` where a value of the probe names no entry in the row of its
/// table.
fn expected_score(tables: &[Vec<Vec<u64>>], template: &[u64], probe: &[u64]) -> (outcome:
    Result<u64, PlanError>)
    requires
        template.len() == tables.len(),
        probe.len() == tables.len(),
        forall|t: int|
            0 <= t < tables.len() ==> template[t] < (#[trigger] tables.deep_view()[t]).len(),
        total_max(tables.deep_view()) <= u64::MAX,
    ensures
        match outcome {
            Ok(expected) => selects(tables.deep_view(), template@, probe@) && expected == score(
                tables.deep_view(),
                template@,
                probe@,
            ),
            Err(error) => error == PlanError::IndexOutOfDomain && !selects(
                tables.deep_view(),
                template@,
                probe@,
            ),
        },
{
    let ghost model = tables.deep_view();
    let mut expected: u64 = 0;
    let mut t: usize = 0;
    while t < tables.len()
        invariant
            model == tables.deep_view(),
            template.len() == tables.len(),
            probe.len() == tables.len(),
            forall|i: int| 0 <= i < tables.len() ==> template[i] < (#[trigger] model[i]).len(),
            total_max(model) <= u64::MAX,
            t <= tables.len(),
            selects_first(model, template@, probe@, t as int),
            expected == score_of_first(model, template@, probe@, t as nat),
        decreases tables.len() - t,
    {
        let table = &tables[t];
        assert(table.deep_view() == model[t as int]);
        assert(template[t as int] < model[t as int].len() == table.len());
        let row = &table[template[t] as usize];
        assert(row.deep_view() == model[t as int][template[t as int] as int]);
        if probe[t] >= row.len() as u64 {
            assert(!in_domain(model[t as int], template[t as int] as int, probe[t as int] as int));
            return Err(PlanError::IndexOutOfDomain);
        }
        let entry: u64 = row[probe[t] as usize];
        assert(entry == model[t as int][template[t as int] as int][probe[t as int] as int]);
        proof {
            assert(selects_first(model, template@, probe@, t + 1));
            lemma_partial_score_below_total_max(model, template@, probe@, (t + 1) as nat);
        }
        expected = expected + entry;
        t = t + 1;
    }
    Ok(expected)
}

/// Plans an attempt: takes the offsets out of the stored tables, chooses the base, builds the
/// lookup tables for the template, gives every lookup its place and its value of the probe,
/// and works out in the clear the score that the encrypted part has to arrive at.
///
/// `config.num_tables` is the number of features: there is one table for each, and template
/// and probe have one value for each.
///
/// Fails with the first reason of `attempt_fails_with` that is the case.
pub fn plan_attempt(
    config: &Config,
    raw_tables: &[Vec<Vec<i64>>],
    probe: &[u64],
    template: &[u64],
) -> (outcome: Result<AttemptPlan, PlanError>)
    requires
        raw_tables.len() == config.num_tables,
        probe.len() == config.num_tables,
        template.len() == config.num_tables,
    ensures
        match outcome {
            Ok(plan) => {
                &&& plannable(config.threshold as int, raw_tables.deep_view(), template@, probe@)
                &&& plan.is_plan_of(
                    config.threshold as int,
                    raw_tables.deep_view(),
                    template@,
                    probe@,
                )
            },
            Err(error) => attempt_fails_with(
                config.threshold as int,
                raw_tables.deep_view(),
                template@,
                probe@,
                error,
            ),
        },
{
    let ghost raw = raw_tables.deep_view();
    let (offset, tables) = match offset_helr_tables(raw_tables) {
        Ok(normalized) => normalized,
        Err(error) => {
            return Err(error);
        },
    };
    let tables: &[Vec<Vec<u64>>] = tables.as_slice();
    let ghost model = tables.deep_view();
    assert(model =~= normalized(raw));
    let decomp_base: u64 = match get_min_decomp_base(tables) {
        Ok(base) => base,
        Err(error) => {
            assert(raw.len() > 0 ==> crate::normalize::table_defect(raw[0]) is None);
            assert(raw.len() > 0 ==> tables[0].deep_view() == model[0]);
            return Err(error);
        },
    };
    assert(tables[0].deep_view() == model[0]);
    assert(decomp_base == attempt_base(raw));
    let luts = match make_row_based_luts(tables, template, decomp_base) {
        Ok(luts) => luts,
        Err(error) => {
            return Err(error);
        },
    };
    let (lut_output_indices, decomp_lengths, sum_block_len) = match get_lut_output_indices(
        tables,
        decomp_base,
    ) {
        Ok(places) => places,
        Err(error) => {
            assert(crate::slots::all_sized_before(model, decomp_base as nat, model.len() as int))
                by {
                assert forall|t: int| 0 <= t < model.len() implies crate::slots::sizing_defect(
                    #[trigger] model[t],
                    decomp_base as nat,
                ) is None by {
                    assert(lut_defect(model[t], template[t] as int, decomp_base as nat) is None);
                }
            }
            return Err(error);
        },
    };
    assert forall|t: int| 0 <= t < tables.len() implies template[t] < (#[trigger] model[t]).len() by {
        assert(lut_defect(model[t], template[t] as int, decomp_base as nat) is None);
    }
    let expected: u64 = match expected_score(tables, template, probe) {
        Ok(expected) => expected,
        Err(error) => {
            return Err(error);
        },
    };
    proof {
        assert(representable(total_max(model), decomp_base as nat));
        lemma_representable(total_max(model), decomp_base as nat);
    }
    let expected_decomp = decompose_to_base(expected, decomp_base, sum_block_len);
    let threshold: i64 = match config.threshold.checked_sub(offset) {
        Some(threshold) => threshold,
        None => {
            return Err(PlanError::Overflow);
        },
    };
    let repeated_probes = repeat_probe(probe, &decomp_lengths);
    let flat = flatten_luts(luts);
    let output_blocks: usize = tables.len() * sum_block_len;
    Ok(
        AttemptPlan {
            threshold,
            decomp_base,
            repeated_probes,
            luts: flat,
            lut_output_indices,
            decomp_lengths,
            sum_block_len,
            output_blocks,
            expected,
            expected_decomp,
        },
    )
}

} // verus!
