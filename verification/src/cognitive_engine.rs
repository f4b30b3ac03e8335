//! The strategy selector: a pure decision table from sample features to
//! a sorting backend. Near-sorted input (score > 0.8) favours the stable
//! merge; NaN-free float data favours the linear-time radix pass; any
//! remaining ambiguity falls back to the comparison sort. Radix is never
//! chosen for generic ordered data, where no order-preserving unsigned
//! mapping exists.

use vstd::prelude::*;

pub mod features;

use crate::float_bits::nan_free;
use features::{
    extract_features_ord, extract_features_f32, sample_score_high_i32, sample_score_high_f32,
};

verus! {

/// The closed set of sorting backends.
#[derive(Debug, PartialEq, Eq, Structural, Clone, Copy)]
pub enum SortingStrategy {
    Radix,
    Timsort,
    Intro,
}

/// What the decision table answers for an ordered sample.
pub open spec fn spec_strategy_ord(sample: Seq<i32>) -> SortingStrategy {
    if sample_score_high_i32(sample) {
        SortingStrategy::Timsort
    } else {
        SortingStrategy::Intro
    }
}

/// What the decision table answers for a float sample.
pub open spec fn spec_strategy_f32(sample: Seq<u32>) -> SortingStrategy {
    if sample_score_high_f32(sample) {
        SortingStrategy::Timsort
    } else if nan_free(sample) {
        SortingStrategy::Radix
    } else {
        SortingStrategy::Intro
    }
}

/// Select a backend for ordered data from the first `sample_len`
/// elements: the stable merge when the sample is nearly sorted,
/// otherwise the unstable comparison sort.
pub fn predict_sorting_strategy(data: &Vec<i32>, sample_len: usize) -> (s: SortingStrategy)
    requires
        sample_len <= data@.len(),
    ensures
        s == spec_strategy_ord(data@.take(sample_len as int)),
{
    let f = extract_features_ord(data, sample_len);
    if (5u128 * f.pre_sortedness_num as u128) > (4u128 * f.pre_sortedness_den as u128) {
        return SortingStrategy::Timsort;
    }
    SortingStrategy::Intro
}

/// Select a backend for float data from the first `sample_len` bit
/// patterns: stable merge when nearly sorted, radix when the sample is
/// NaN-free numeric data, the NaN-tolerant comparison sort otherwise.
pub fn predict_sorting_strategy_f32(data: &Vec<u32>, sample_len: usize) -> (s: SortingStrategy)
    requires
        sample_len <= data@.len(),
    ensures
        s == spec_strategy_f32(data@.take(sample_len as int)),
{
    let f = extract_features_f32(data, sample_len);
    if (5u128 * f.pre_sortedness_num as u128) > (4u128 * f.pre_sortedness_den as u128) {
        return SortingStrategy::Timsort;
    }
    if f.is_numeric_like {
        proof {
            if sample_len <= 1 {
                assert(data@.take(sample_len as int).len() <= 1);
            }
        }
        return SortingStrategy::Radix;
    }
    SortingStrategy::Intro
}

} // verus!
