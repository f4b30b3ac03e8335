//! The feature extractor: estimates pre-sortedness from the run count
//! over a bounded prefix sample, and (for floats) whether the sample is
//! free of NaN. The score is the exact rational
//! `pre_sortedness_num / pre_sortedness_den`, kept as a fraction so no
//! rounding enters the strategy decision.

use vstd::prelude::*;

use crate::float_bits::{is_nan_exec, lt_bits, nan_free};

verus! {

/// Cheap statistics of a sample. The score num/den lies in [0, 1]:
/// 1 means fully non-descending, near 0 maximally fragmented.
pub struct DataFeatures {
    pub pre_sortedness_num: usize,
    pub pre_sortedness_den: usize,
    pub is_numeric_like: bool,
}

/// Number of adjacent descents (later element strictly below the former).
pub open spec fn descents_i32(s: Seq<i32>) -> int
    decreases s.len(),
{
    if s.len() <= 1 {
        0
    } else {
        descents_i32(s.drop_last()) + if s[s.len() - 1] < s[s.len() - 2] {
            1int
        } else {
            0int
        }
    }
}

/// Adjacent descents under the NaN-as-equal float comparator.
pub open spec fn descents_f32(s: Seq<u32>) -> int
    decreases s.len(),
{
    if s.len() <= 1 {
        0
    } else {
        descents_f32(s.drop_last()) + if lt_bits(s[s.len() - 1], s[s.len() - 2]) {
            1int
        } else {
            0int
        }
    }
}

proof fn lemma_descents_i32_bound(s: Seq<i32>)
    ensures
        0 <= descents_i32(s) <= if s.len() <= 1 {
            0int
        } else {
            s.len() - 1
        },
    decreases s.len(),
{
    if s.len() > 1 {
        lemma_descents_i32_bound(s.drop_last());
    }
}

proof fn lemma_descents_f32_bound(s: Seq<u32>)
    ensures
        0 <= descents_f32(s) <= if s.len() <= 1 {
            0int
        } else {
            s.len() - 1
        },
    decreases s.len(),
{
    if s.len() > 1 {
        lemma_descents_f32_bound(s.drop_last());
    }
}

/// The selector's threshold: score > 0.8, i.e. num/den > 4/5.
pub open spec fn score_above_threshold(f: DataFeatures) -> bool {
    5 * f.pre_sortedness_num > 4 * f.pre_sortedness_den
}

/// Pre-sortedness of a whole ordered sample, as the selector sees it.
pub open spec fn sample_score_high_i32(s: Seq<i32>) -> bool {
    s.len() <= 1 || 5 * (s.len() - 1 - descents_i32(s)) > 4 * (s.len() - 1)
}

/// Pre-sortedness of a whole float sample, as the selector sees it.
pub open spec fn sample_score_high_f32(s: Seq<u32>) -> bool {
    s.len() <= 1 || 5 * (s.len() - 1 - descents_f32(s)) > 4 * (s.len() - 1)
}

/// Run-count features of the first `sample_len` ordered elements.
pub fn extract_features_ord(data: &Vec<i32>, sample_len: usize) -> (f: DataFeatures)
    requires
        sample_len <= data@.len(),
    ensures
        f.is_numeric_like == true,
        f.pre_sortedness_den >= 1,
        sample_len <= 1 ==> f.pre_sortedness_num == 1 && f.pre_sortedness_den == 1,
        sample_len > 1 ==> f.pre_sortedness_den == sample_len - 1 && f.pre_sortedness_num
            == sample_len - 1 - descents_i32(data@.take(sample_len as int)),
        score_above_threshold(f) == sample_score_high_i32(data@.take(sample_len as int)),
{
    let n = sample_len;
    if n <= 1 {
        proof {
            assert(data@.take(n as int).len() <= 1);
        }
        return DataFeatures { pre_sortedness_num: 1, pre_sortedness_den: 1, is_numeric_like: true };
    }
    let mut runs: usize = 1;
    let mut i: usize = 1;
    while i < n
        invariant
            1 <= i <= n,
            n <= data@.len(),
            runs == 1 + descents_i32(data@.take(i as int)),
            runs <= i,
        decreases n - i,
    {
        proof {
            assert(data@.take(i as int + 1).drop_last() =~= data@.take(i as int));
        }
        if data[i] < data[i - 1] {
            runs = runs + 1;
        }
        i += 1;
    }
    proof {
        lemma_descents_i32_bound(data@.take(n as int));
    }
    DataFeatures {
        pre_sortedness_num: n - runs,
        pre_sortedness_den: n - 1,
        is_numeric_like: true,
    }
}

/// Run-count and NaN-freedom features of the first `sample_len` float
/// bit patterns.
pub fn extract_features_f32(data: &Vec<u32>, sample_len: usize) -> (f: DataFeatures)
    requires
        sample_len <= data@.len(),
    ensures
        f.pre_sortedness_den >= 1,
        sample_len <= 1 ==> f.pre_sortedness_num == 1 && f.pre_sortedness_den == 1
            && f.is_numeric_like == true,
        sample_len > 1 ==> f.pre_sortedness_den == sample_len - 1 && f.pre_sortedness_num
            == sample_len - 1 - descents_f32(data@.take(sample_len as int)) && f.is_numeric_like
            == nan_free(data@.take(sample_len as int)),
        score_above_threshold(f) == sample_score_high_f32(data@.take(sample_len as int)),
{
    let n = sample_len;
    if n <= 1 {
        proof {
            assert(data@.take(n as int).len() <= 1);
        }
        return DataFeatures { pre_sortedness_num: 1, pre_sortedness_den: 1, is_numeric_like: true };
    }
    let mut runs: usize = 1;
    let mut i: usize = 1;
    while i < n
        invariant
            1 <= i <= n,
            n <= data@.len(),
            runs == 1 + descents_f32(data@.take(i as int)),
            runs <= i,
        decreases n - i,
    {
        proof {
            assert(data@.take(i as int + 1).drop_last() =~= data@.take(i as int));
        }
        if crate::float_bits::lt_exec(data[i], data[i - 1]) {
            runs = runs + 1;
        }
        i += 1;
    }
    let mut numeric = true;
    let mut k: usize = 0;
    while k < n
        invariant
            k <= n,
            n <= data@.len(),
            numeric == nan_free(data@.take(k as int)),
        decreases n - k,
    {
        if is_nan_exec(data[k]) {
            numeric = false;
        }
        proof {
            let tk1 = data@.take(k as int + 1);
            let tk = data@.take(k as int);
            if nan_free(tk) && !crate::float_bits::is_nan_bits(data@[k as int]) {
                assert forall|w: int|
                    0 <= w < tk1.len() implies !crate::float_bits::is_nan_bits(
                    #[trigger] tk1[w],
                ) by {
                    if w < k {
                        assert(tk1[w] == tk[w]);
                    } else {
                        assert(tk1[w] == data@[k as int]);
                    }
                }
            }
            if nan_free(tk1) {
                assert forall|w: int|
                    0 <= w < tk.len() implies !crate::float_bits::is_nan_bits(#[trigger] tk[w]) by {
                    assert(tk[w] == tk1[w]);
                }
                assert(tk1[k as int] == data@[k as int]);
                assert(!crate::float_bits::is_nan_bits(data@[k as int]));
            }
        }
        k += 1;
    }
    proof {
        lemma_descents_f32_bound(data@.take(n as int));
    }
    DataFeatures {
        pre_sortedness_num: n - runs,
        pre_sortedness_den: n - 1,
        is_numeric_like: numeric,
    }
}

} // verus!
