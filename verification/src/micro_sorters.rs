//! Fixed sorting networks for very small arrays, plus an insertion-sort
//! fallback for sizes up to the micro threshold. All of them compare with
//! the NaN-as-equal comparator: a compare-exchange never fires on an
//! incomparable pair, so NaN-laden input still terminates in place.

use vstd::prelude::*;

use crate::float_bits::{
    cmp_key, gt_bits, gt_exec, is_nan_bits, nan_free, sorted_cmp_keys, key_class, same_key_order,
    lemma_key_class_push, lemma_key_class_concat, lemma_key_class_none, lemma_key_class_empty,
};

verus! {

/// One compare-exchange as a sequence transformer: the exact effect of
/// `swap_if_greater` on slots `i` and `j`.
pub open spec fn compare_exchange(s: Seq<u32>, i: int, j: int) -> Seq<u32> {
    if gt_bits(s[i], s[j]) {
        s.update(i, s[j]).update(j, s[i])
    } else {
        s
    }
}

/// The two-element network as a function on sequences.
pub open spec fn network2(s: Seq<u32>) -> Seq<u32> {
    compare_exchange(s, 0, 1)
}

/// The three-element network as a function on sequences.
pub open spec fn network3(s: Seq<u32>) -> Seq<u32> {
    compare_exchange(compare_exchange(compare_exchange(s, 0, 1), 1, 2), 0, 1)
}

/// The four-element network as a function on sequences.
pub open spec fn network4(s: Seq<u32>) -> Seq<u32> {
    compare_exchange(
        compare_exchange(compare_exchange(compare_exchange(compare_exchange(s, 0, 2), 1, 3), 0, 1), 2, 3),
        1,
        2,
    )
}

/// One compare-exchange: swap the two slots when the comparator says
/// strictly greater (it never does for an incomparable pair).
pub fn swap_if_greater(v: &mut Vec<u32>, i: usize, j: usize)
    requires
        i < j < old(v)@.len(),
    ensures
        final(v)@.len() == old(v)@.len(),
        final(v)@.to_multiset() == old(v)@.to_multiset(),
        forall|k: int| 0 <= k < old(v)@.len() && k != i && k != j ==> final(v)@[k] == old(v)@[k],
        final(v)@ == compare_exchange(old(v)@, i as int, j as int),
        (if gt_bits(old(v)@[i as int], old(v)@[j as int]) {
            final(v)@[i as int] == old(v)@[j as int] && final(v)@[j as int] == old(v)@[i as int]
        } else {
            final(v)@ == old(v)@
        }),
        !gt_bits(final(v)@[i as int], final(v)@[j as int]),
{
    let a = v[i];
    let b = v[j];
    if gt_exec(a, b) {
        v[i] = b;
        v[j] = a;
        proof {
            assert(v@ =~= old(v)@.update(i as int, b).update(j as int, a));
            lemma_swap_multiset(old(v)@, i as int, j as int);
        }
    }
}

/// Exchanging two slots of a sequence keeps its multiset.
pub(crate) proof fn lemma_swap_multiset(s: Seq<u32>, i: int, j: int)
    requires
        0 <= i < j < s.len(),
    ensures
        s.update(i, s[j]).update(j, s[i]).to_multiset() == s.to_multiset(),
{
    broadcast use vstd::seq_lib::to_multiset_update;
    broadcast use vstd::seq_lib::group_to_multiset_ensures;
    broadcast use vstd::multiset::group_multiset_axioms;
    broadcast use vstd::multiset::group_multiset_properties;

    let t = s.update(i, s[j]).update(j, s[i]);
    assert(s.contains(s[i]));
    assert(s.contains(s[j]));
    assert(s.update(i, s[j])[j] == s[j]);
    assert(t.to_multiset() =~= s.to_multiset());
}

/// Two-element network: a single compare-exchange.
pub fn sort2(v: &mut Vec<u32>)
    requires
        old(v)@.len() == 2,
    ensures
        final(v)@.len() == 2,
        final(v)@.to_multiset() == old(v)@.to_multiset(),
        final(v)@ == network2(old(v)@),
        nan_free(old(v)@) ==> sorted_cmp_keys(final(v)@),
{
    swap_if_greater(v, 0, 1);
}

/// Three-element network: comparators (0,1), (1,2), (0,1).
pub fn sort3(v: &mut Vec<u32>)
    requires
        old(v)@.len() == 3,
    ensures
        final(v)@.len() == 3,
        final(v)@.to_multiset() == old(v)@.to_multiset(),
        final(v)@ == network3(old(v)@),
        nan_free(old(v)@) ==> sorted_cmp_keys(final(v)@),
{
    swap_if_greater(v, 0, 1);
    swap_if_greater(v, 1, 2);
    swap_if_greater(v, 0, 1);
}

/// Four-element network with five comparators:
/// (0,2), (1,3), (0,1), (2,3), (1,2).
pub fn sort4_alphadev(v: &mut Vec<u32>)
    requires
        old(v)@.len() == 4,
    ensures
        final(v)@.len() == 4,
        final(v)@.to_multiset() == old(v)@.to_multiset(),
        final(v)@ == network4(old(v)@),
        nan_free(old(v)@) ==> sorted_cmp_keys(final(v)@),
{
    swap_if_greater(v, 0, 2);
    swap_if_greater(v, 1, 3);
    swap_if_greater(v, 0, 1);
    swap_if_greater(v, 2, 3);
    swap_if_greater(v, 1, 2);
}

/// A stable insertion step: inserting `x` just below the run of
/// strictly greater elements keeps every key class's order.
proof fn lemma_stable_insert(tv: Seq<u32>, out: Seq<u32>, p: int, x: u32)
    requires
        0 <= p <= out.len(),
        forall|k: u32| #[trigger] key_class(tv, k) == key_class(out, k),
        forall|w: int| p <= w < out.len() ==> gt_bits(#[trigger] out[w], x),
    ensures
        forall|k: u32| #[trigger] key_class(tv.push(x), k) == key_class(out.insert(p, x), k),
{
    assert forall|k: u32| #[trigger] key_class(tv.push(x), k) == key_class(
        out.insert(p, x),
        k,
    ) by {
        lemma_key_class_push(tv, x, k);
        assert(out.insert(p, x) =~= out.take(p) + seq![x] + out.skip(p));
        lemma_key_class_concat(out.take(p) + seq![x], out.skip(p), k);
        lemma_key_class_concat(out.take(p), seq![x], k);
        lemma_key_class_concat(out.take(p), out.skip(p), k);
        assert(out.take(p) + out.skip(p) =~= out);
        assert(seq![x] =~= Seq::<u32>::empty().push(x));
        lemma_key_class_push(Seq::<u32>::empty(), x, k);
        lemma_key_class_empty(k);
        if cmp_key(x) == k {
            assert forall|w: int|
                0 <= w < out.skip(p).len() implies cmp_key(#[trigger] out.skip(p)[w]) != k by {
                assert(out.skip(p)[w] == out[p + w]);
                assert(gt_bits(out[p + w], x));
            }
            lemma_key_class_none(out.skip(p), k);
            assert(key_class(out.insert(p, x), k) =~= key_class(out.take(p), k).push(x));
            assert(key_class(out, k) =~= key_class(out.take(p), k));
            assert(key_class(tv.push(x), k) =~= key_class(out.insert(p, x), k));
        } else {
            assert(key_class(out.insert(p, x), k) =~= key_class(out, k));
        }
    }
}

/// Insertion sort: the safe fallback for sizes without a dedicated
/// network. Stable — every equal-key run keeps its input order — and
/// total even on incomparable (NaN) input.
pub fn fallback_sort(v: &mut Vec<u32>)
    ensures
        final(v)@.len() == old(v)@.len(),
        final(v)@.to_multiset() == old(v)@.to_multiset(),
        same_key_order(old(v)@, final(v)@),
        nan_free(old(v)@) ==> sorted_cmp_keys(final(v)@),
{
    broadcast use vstd::seq_lib::group_to_multiset_ensures;
    broadcast use vstd::seq_lib::to_multiset_insert;

    let n = v.len();
    let mut out: Vec<u32> = Vec::new();
    let mut idx: usize = 0;
    while idx < n
        invariant
            n == v@.len(),
            idx <= n,
            out@.len() == idx,
            out@.to_multiset() == v@.take(idx as int).to_multiset(),
            forall|k: u32| #[trigger] key_class(v@.take(idx as int), k) == key_class(out@, k),
            nan_free(v@) ==> nan_free(out@),
            nan_free(v@) ==> sorted_cmp_keys(out@),
        decreases n - idx,
    {
        let x = v[idx];
        let mut p: usize = out.len();
        while p > 0 && gt_exec(out[p - 1], x)
            invariant
                p <= out@.len(),
                forall|k: int| p <= k < out@.len() ==> gt_bits(#[trigger] out@[k], x),
            decreases p,
        {
            p -= 1;
        }
        proof {
            assert(v@.take(idx as int).push(x) =~= v@.take(idx as int + 1));
            vstd::seq_lib::to_multiset_build(v@.take(idx as int), x);
            vstd::seq_lib::to_multiset_insert(out@, p as int, x);
            lemma_stable_insert(v@.take(idx as int), out@, p as int, x);
            assert(out@.insert(p as int, x).to_multiset() =~= v@.take(
                idx as int + 1,
            ).to_multiset());
            if nan_free(v@) {
                out@.insert_ensures(p as int, x);
                assert(nan_free(out@.insert(p as int, x)));
                assert forall|a: int, b: int|
                    0 <= a <= b < out@.insert(p as int, x).len() implies cmp_key(
                    #[trigger] out@.insert(p as int, x)[a],
                ) <= cmp_key(#[trigger] out@.insert(p as int, x)[b]) by {
                    out@.insert_ensures(p as int, x);
                    assert(!is_nan_bits(x));
                    if p > 0 {
                        assert(!gt_bits(out@[p as int - 1], x));
                    }
                }
            }
        }
        out.insert(p, x);
        idx += 1;
    }
    proof {
        assert(v@.take(n as int) =~= v@);
    }
    *v = out;
}

/// Entry point of the micro-sorter: dispatch to the network matching the
/// length, or to the insertion fallback for other small sizes. The
/// networks are fixed functions of the input (consistent on every run,
/// NaN or not); the fallback is stable.
pub fn alpha_dev_sort(v: &mut Vec<u32>)
    ensures
        final(v)@.len() == old(v)@.len(),
        final(v)@.to_multiset() == old(v)@.to_multiset(),
        old(v)@.len() <= 1 ==> final(v)@ == old(v)@,
        old(v)@.len() == 2 ==> final(v)@ == network2(old(v)@),
        old(v)@.len() == 3 ==> final(v)@ == network3(old(v)@),
        old(v)@.len() == 4 ==> final(v)@ == network4(old(v)@),
        old(v)@.len() > 4 ==> same_key_order(old(v)@, final(v)@),
        nan_free(old(v)@) ==> sorted_cmp_keys(final(v)@),
{
    let n = v.len();
    if n <= 1 {
        // already sorted
    } else if n == 2 {
        sort2(v);
    } else if n == 3 {
        sort3(v);
    } else if n == 4 {
        sort4_alphadev(v);
    } else {
        fallback_sort(v);
    }
}

} // verus!
