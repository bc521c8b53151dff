//! Quantization: from a measurement to the index of the bin that it falls in.
//!
//! Measurements and the bounds of the bins are integers here. Whatever is measured, the
//! integers handed in must order as the measurements do: fixed-point readings do, and so do
//! order-preserving keys made of floating-point numbers.

use vstd::prelude::*;

verus! {

/// `index` is the bin of `value`: the least index whose bound is not below `value`, or the
/// number of bounds where every bound is below it (the bin of what exceeds all bounds).
pub open spec fn is_bin_of(value: int, bins: Seq<i64>, index: int) -> bool {
    &&& 0 <= index <= bins.len()
    &&& forall|j: int| 0 <= j < index ==> (#[trigger] bins[j]) < value
    &&& index < bins.len() ==> value <= bins[index]
}

/// A value has one bin only.
pub proof fn lemma_bin_is_unique(value: int, bins: Seq<i64>, first: int, second: int)
    requires
        is_bin_of(value, bins, first),
        is_bin_of(value, bins, second),
    ensures
        first == second,
{
    if first < second {
        assert(bins[first] < value);
    } else if second < first {
        assert(bins[second] < value);
    }
}

/// A value on a bound falls in the bin that the bound closes, and a value above every bound
/// in the bin after the last.
pub proof fn lemma_bin_at_bounds(value: int, bins: Seq<i64>, index: int)
    requires
        is_bin_of(value, bins, index),
    ensures
        (forall|j: int| 0 <= j < bins.len() ==> (#[trigger] bins[j]) < value) ==> index
            == bins.len(),
        forall|j: int|
            0 <= j < bins.len() && (#[trigger] bins[j]) == value && (forall|i: int|
                0 <= i < j ==> (#[trigger] bins[i]) < value) ==> index == j,
{
    assert forall|j: int|
        0 <= j < bins.len() && (#[trigger] bins[j]) == value && (forall|i: int|
            0 <= i < j ==> (#[trigger] bins[i]) < value) implies index == j by {
        lemma_bin_is_unique(value, bins, index, j);
    }
}

/// The bin of `value`.
pub fn quantize(value: i64, bins: &[i64]) -> (index: usize)
    ensures
        is_bin_of(value as int, bins@, index as int),
{
    let mut index: usize = 0;
    while index < bins.len() && bins[index] < value
        invariant
            index <= bins.len(),
            forall|j: int| 0 <= j < index ==> (#[trigger] bins[j]) < value,
        decreases bins.len() - index,
    {
        index = index + 1;
    }
    index
}

/// The bin of every measurement of a feature vector, each by itself.
pub fn quantize_vector(feat_vec: &[i64], qbins: &[i64]) -> (indices: Vec<u64>)
    ensures
        indices.len() == feat_vec.len(),
        forall|i: int|
            0 <= i < feat_vec.len() ==> is_bin_of(
                feat_vec[i] as int,
                qbins@,
                (#[trigger] indices[i]) as int,
            ),
{
    let mut indices: Vec<u64> = Vec::new();
    let mut i: usize = 0;
    while i < feat_vec.len()
        invariant
            i <= feat_vec.len(),
            indices.len() == i,
            forall|k: int|
                0 <= k < i ==> is_bin_of(
                    feat_vec[k] as int,
                    qbins@,
                    (#[trigger] indices[k]) as int,
                ),
        decreases feat_vec.len() - i,
    {
        let index: usize = quantize(feat_vec[i], qbins);
        indices.push(index as u64);
        i = i + 1;
    }
    indices
}

} // verus!
