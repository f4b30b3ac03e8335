//! Adaptive multi-strategy sorting: a feature extractor estimates how
//! pre-sorted the data is, a selector picks a sorting backend, and the
//! chosen backend sorts the whole array in place.
//!
//! Single-precision floating-point inputs are handled throughout as their
//! IEEE-754 bit patterns (`u32`), since every ordering decision the library
//! makes depends only on the bits. `nexus_sort_f32` therefore takes the
//! array of bit patterns; converting a float array to and from its bits is
//! the caller's one-line duty.

use vstd::prelude::*;

pub mod float_bits;
pub mod cognitive_engine;
pub mod micro_sorters;
pub mod macro_sorters;
pub mod ord_sorters;

use crate::cognitive_engine::{SortingStrategy, spec_strategy_f32};
use crate::float_bits::{
    adjacent_le, nan_free, same_key_order, sorted_cmp_keys, sorted_sort_keys, sort_key,
};
use crate::micro_sorters::{network2, network3, network4};
use crate::ord_sorters::sorted_i32;

verus! {

/// Arrays no longer than this go straight to the micro-sorter.
pub const MICRO_SORTER_THRESHOLD: usize = 32;

/// The feature extractor inspects at most this many leading elements.
pub const SAMPLING_SIZE: usize = 1024;

/// The prefix the feature extractor inspects: the whole array up to the
/// sampling cap.
pub open spec fn spec_sample(s: Seq<u32>) -> Seq<u32> {
    if s.len() <= SAMPLING_SIZE {
        s
    } else {
        s.take(SAMPLING_SIZE as int)
    }
}

/// Sort ordered elements in place: sample the prefix, pick a strategy,
/// and run the stable merge or the unstable comparison sort over the
/// whole array. The result is always the non-decreasing rearrangement.
pub fn nexus_sort(v: &mut Vec<i32>)
    ensures
        final(v)@.len() == old(v)@.len(),
        final(v)@.to_multiset() == old(v)@.to_multiset(),
        sorted_i32(final(v)@),
{
    let n = v.len();
    if n <= 1 {
        return ;
    }
    let sample_len = if n < SAMPLING_SIZE {
        n
    } else {
        SAMPLING_SIZE
    };
    let strategy = cognitive_engine::predict_sorting_strategy(v, sample_len);
    let work = ord_sorters::copy_i32(v);
    let sorted = match strategy {
        SortingStrategy::Timsort => ord_sorters::merge_sort_i32(work),
        _ => ord_sorters::introsort_i32(work, 2 * macro_sorters::log2_floor(n)),
    };
    *v = sorted;
}

/// Sort float bit patterns in place. Very small arrays go straight to
/// the micro-sorter; otherwise the sampled prefix selects radix (clean
/// numeric data), stable merge (nearly sorted), or the NaN-tolerant
/// comparison sort. Always a permutation, always terminates — and on
/// NaN-free input the result is non-decreasing under the float order.
/// The micro networks are fixed functions of the input, the micro
/// fallback is stable, and when the selector picks the stable branch
/// every equal-key run keeps its input order: on those paths the output
/// is pinned bit for bit (see `lemma_stable_sort_unique`).
pub fn nexus_sort_f32(v: &mut Vec<u32>)
    ensures
        final(v)@.len() == old(v)@.len(),
        final(v)@.to_multiset() == old(v)@.to_multiset(),
        nan_free(old(v)@) ==> sorted_cmp_keys(final(v)@),
        old(v)@.len() <= 1 ==> final(v)@ == old(v)@,
        old(v)@.len() == 2 ==> final(v)@ == network2(old(v)@),
        old(v)@.len() == 3 ==> final(v)@ == network3(old(v)@),
        old(v)@.len() == 4 ==> final(v)@ == network4(old(v)@),
        4 < old(v)@.len() <= MICRO_SORTER_THRESHOLD ==> same_key_order(old(v)@, final(v)@),
        old(v)@.len() > MICRO_SORTER_THRESHOLD && nan_free(old(v)@) && spec_strategy_f32(
            spec_sample(old(v)@),
        ) == SortingStrategy::Timsort ==> same_key_order(old(v)@, final(v)@),
        old(v)@.len() > MICRO_SORTER_THRESHOLD && spec_strategy_f32(spec_sample(old(v)@))
            != SortingStrategy::Intro ==> adjacent_le(final(v)@),
{
    let n = v.len();
    if n <= 1 {
        return ;
    }
    if n <= MICRO_SORTER_THRESHOLD {
        micro_sorters::alpha_dev_sort(v);
        return ;
    }
    let sample_len = if n < SAMPLING_SIZE {
        n
    } else {
        SAMPLING_SIZE
    };
    let strategy = cognitive_engine::predict_sorting_strategy_f32(v, sample_len);
    proof {
        assert(v@.take(sample_len as int) =~= spec_sample(v@));
    }
    match strategy {
        SortingStrategy::Radix => {
            macro_sorters::radix_sort_f32(v);
            proof {
                float_bits::lemma_sorted_sort_keys_implies_cmp(v@);
                float_bits::lemma_sorted_cmp_implies_adjacent(v@);
            }
        },
        SortingStrategy::Timsort => {
            macro_sorters::comparison_sort(v, true);
        },
        SortingStrategy::Intro => {
            macro_sorters::comparison_sort(v, false);
        },
    }
}

/// Sorting is idempotent: any two non-decreasing arrangements of the
/// same elements coincide, so feeding `nexus_sort`'s output back into
/// `nexus_sort` returns it unchanged.
pub proof fn lemma_sort_idempotent(a: Seq<i32>, b: Seq<i32>)
    requires
        sorted_i32(a),
        sorted_i32(b),
        a.to_multiset() == b.to_multiset(),
    ensures
        a == b,
{
    let leq = |x: i32, y: i32| x <= y;
    assert(vstd::relations::total_ordering(leq)) by {
        assert forall|x: i32| #[trigger] leq(x, x) by {}
        assert forall|x: i32, y: i32| #[trigger] leq(x, y) && #[trigger] leq(y, x) implies x
            == y by {}
        assert forall|x: i32, y: i32, z: i32|
            #[trigger] leq(x, y) && #[trigger] leq(y, z) implies leq(x, z) by {}
        assert forall|x: i32, y: i32| #[trigger] leq(x, y) || #[trigger] leq(y, x) by {}
    }
    assert(vstd::relations::sorted_by(a, leq));
    assert(vstd::relations::sorted_by(b, leq));
    vstd::seq_lib::lemma_sorted_unique(a, b, leq);
}

/// The radix backend's placement is deterministic: the transform's total
/// order (which separates -0.0 from +0.0 and fixes every NaN pattern's
/// position by its bits) admits exactly one sorted arrangement of any
/// multiset, so repeated runs give byte-identical output.
pub proof fn lemma_radix_order_unique(a: Seq<u32>, b: Seq<u32>)
    requires
        sorted_sort_keys(a),
        sorted_sort_keys(b),
        a.to_multiset() == b.to_multiset(),
    ensures
        a == b,
{
    let leq = |x: u32, y: u32| sort_key(x) <= sort_key(y);
    assert(vstd::relations::total_ordering(leq)) by {
        assert forall|x: u32| #[trigger] leq(x, x) by {}
        assert forall|x: u32, y: u32| #[trigger] leq(x, y) && #[trigger] leq(y, x) implies x
            == y by {
            float_bits::lemma_sort_key_injective(x, y);
        }
        assert forall|x: u32, y: u32, z: u32|
            #[trigger] leq(x, y) && #[trigger] leq(y, z) implies leq(x, z) by {}
        assert forall|x: u32, y: u32| #[trigger] leq(x, y) || #[trigger] leq(y, x) by {}
    }
    assert(vstd::relations::sorted_by(a, leq));
    assert(vstd::relations::sorted_by(b, leq));
    vstd::seq_lib::lemma_sorted_unique(a, b, leq);
}

} // verus!
