//! The bit-level model of IEEE-754 single-precision ordering.
//!
//! A float is carried as its raw 32-bit pattern. `sort_key` is the
//! order-preserving transform: negative patterns (sign bit set) have all
//! bits inverted, non-negative ones only the sign bit flipped, so that
//! unsigned comparison of the keys agrees with the floating-point total
//! order (negative NaNs lowest, then -inf .. -0.0, +0.0 .. +inf, positive
//! NaNs highest). `cmp_key` additionally collapses -0.0 onto +0.0, which
//! makes unsigned comparison of `cmp_key`s agree with the partial order
//! `partial_cmp` of the represented values whenever neither is a NaN.

use vstd::prelude::*;

verus! {

/// The bit pattern encodes a NaN: exponent all ones, mantissa non-zero.
pub open spec fn is_nan_bits(x: u32) -> bool {
    x & 0x7f80_0000 == 0x7f80_0000 && x & 0x007f_ffff != 0
}

/// Order-preserving transform from float bit patterns to unsigned keys.
pub open spec fn sort_key(x: u32) -> u32 {
    if x & 0x8000_0000 != 0 {
        !x
    } else {
        x ^ 0x8000_0000
    }
}

/// Inverse of `sort_key`.
pub open spec fn unsort_key(k: u32) -> u32 {
    if k & 0x8000_0000 != 0 {
        k ^ 0x8000_0000
    } else {
        !k
    }
}

/// Comparison key: like `sort_key`, but -0.0 (the only pattern whose sort
/// key is 0x7fff_ffff) is mapped onto +0.0's key, since the two compare
/// equal as floats.
pub open spec fn cmp_key(x: u32) -> u32 {
    if sort_key(x) == 0x7fff_ffff {
        0x8000_0000
    } else {
        sort_key(x)
    }
}

/// The NaN-as-equal comparator reports `Less`: both comparable, key below.
pub open spec fn lt_bits(a: u32, b: u32) -> bool {
    !is_nan_bits(a) && !is_nan_bits(b) && cmp_key(a) < cmp_key(b)
}

/// The NaN-as-equal comparator reports `Greater`.
pub open spec fn gt_bits(a: u32, b: u32) -> bool {
    !is_nan_bits(a) && !is_nan_bits(b) && cmp_key(a) > cmp_key(b)
}

/// Non-decreasing under the NaN-as-equal comparator.
pub open spec fn le_bits(a: u32, b: u32) -> bool {
    !gt_bits(a, b)
}

/// Adjacent pairs never compare Greater under the NaN-as-equal rule:
/// the "internally consistent, non-decreasing" order that survives even
/// when NaN makes a total order impossible.
pub open spec fn adjacent_le(s: Seq<u32>) -> bool {
    forall|i: int| 0 < i < s.len() ==> !(#[trigger] gt_bits(s[i - 1], s[i]))
}

/// Reading one adjacent link out of `adjacent_le`.
pub proof fn lemma_adjacent_at(s: Seq<u32>, i: int)
    requires
        adjacent_le(s),
        0 < i < s.len(),
    ensures
        !gt_bits(s[i - 1], s[i]),
{
}

/// A fully sorted array is adjacent non-decreasing under NaN-as-equal.
pub proof fn lemma_sorted_cmp_implies_adjacent(s: Seq<u32>)
    requires
        sorted_cmp_keys(s),
    ensures
        adjacent_le(s),
{
}

/// No element of the sequence is a NaN pattern.
pub open spec fn nan_free(s: Seq<u32>) -> bool {
    forall|i: int| 0 <= i < s.len() ==> !is_nan_bits(#[trigger] s[i])
}

/// Non-decreasing under the float partial order (meaningful on NaN-free data).
pub open spec fn sorted_cmp_keys(s: Seq<u32>) -> bool {
    forall|i: int, j: int| 0 <= i <= j < s.len() ==> cmp_key(#[trigger] s[i]) <= cmp_key(#[trigger] s[j])
}

/// Non-decreasing under the full order-preserving transform; this is the
/// total order the radix backend establishes, and it distinguishes -0.0
/// from +0.0 (and orders NaN patterns by their bits).
pub open spec fn sorted_sort_keys(s: Seq<u32>) -> bool {
    forall|i: int, j: int| 0 <= i <= j < s.len() ==> sort_key(#[trigger] s[i]) <= sort_key(#[trigger] s[j])
}

pub fn is_nan_exec(x: u32) -> (r: bool)
    ensures
        r == is_nan_bits(x),
{
    x & 0x7f80_0000 == 0x7f80_0000 && x & 0x007f_ffff != 0
}

pub fn sort_key_exec(x: u32) -> (k: u32)
    ensures
        k == sort_key(x),
{
    if x & 0x8000_0000 != 0 {
        !x
    } else {
        x ^ 0x8000_0000
    }
}

pub fn unsort_key_exec(k: u32) -> (x: u32)
    ensures
        x == unsort_key(k),
{
    if k & 0x8000_0000 != 0 {
        k ^ 0x8000_0000
    } else {
        !k
    }
}

pub fn cmp_key_exec(x: u32) -> (k: u32)
    ensures
        k == cmp_key(x),
{
    let sk = sort_key_exec(x);
    if sk == 0x7fff_ffff {
        0x8000_0000
    } else {
        sk
    }
}

/// The NaN-as-equal comparator's `Less` outcome.
pub fn lt_exec(a: u32, b: u32) -> (r: bool)
    ensures
        r == lt_bits(a, b),
{
    !is_nan_exec(a) && !is_nan_exec(b) && cmp_key_exec(a) < cmp_key_exec(b)
}

/// The NaN-as-equal comparator's `Greater` outcome.
pub fn gt_exec(a: u32, b: u32) -> (r: bool)
    ensures
        r == gt_bits(a, b),
{
    !is_nan_exec(a) && !is_nan_exec(b) && cmp_key_exec(a) > cmp_key_exec(b)
}

/// The transform is undone by `unsort_key`.
pub proof fn lemma_sort_key_roundtrip(x: u32)
    ensures
        unsort_key(sort_key(x)) == x,
{
    assert(unsort_key(sort_key(x)) == x) by (bit_vector);
}

/// The transform is injective.
pub proof fn lemma_sort_key_injective(a: u32, b: u32)
    requires
        sort_key(a) == sort_key(b),
    ensures
        a == b,
{
    lemma_sort_key_roundtrip(a);
    lemma_sort_key_roundtrip(b);
}

/// Sort-key order refines comparison-key order: only the two zero
/// patterns have distinct sort keys but equal comparison keys.
pub proof fn lemma_sort_key_le_implies_cmp_key_le(a: u32, b: u32)
    requires
        sort_key(a) <= sort_key(b),
    ensures
        cmp_key(a) <= cmp_key(b),
{
}

/// An array sorted by sort keys is sorted by comparison keys too.
pub proof fn lemma_sorted_sort_keys_implies_cmp(s: Seq<u32>)
    requires
        sorted_sort_keys(s),
    ensures
        sorted_cmp_keys(s),
{
    assert forall|i: int, j: int| 0 <= i <= j < s.len() implies cmp_key(#[trigger] s[i]) <= cmp_key(
        #[trigger] s[j],
    ) by {
        lemma_sort_key_le_implies_cmp_key_le(s[i], s[j]);
    }
}

/// The elements of `s` whose comparison key is exactly `k`, in order.
pub open spec fn key_class(s: Seq<u32>, k: u32) -> Seq<u32> {
    s.filter(|e: u32| cmp_key(e) == k)
}

/// `b` keeps every equal-key run of `a` in its original relative order:
/// the subsequence of each comparison-key class is unchanged. This is
/// what "stable" means; together with sortedness it pins an output bit
/// for bit (see `lemma_stable_sort_unique`).
pub open spec fn same_key_order(a: Seq<u32>, b: Seq<u32>) -> bool {
    forall|k: u32| #[trigger] key_class(a, k) == #[trigger] key_class(b, k)
}

/// The empty sequence has empty key classes.
pub proof fn lemma_key_class_empty(k: u32)
    ensures
        key_class(Seq::<u32>::empty(), k) == Seq::<u32>::empty(),
{
    Seq::<u32>::empty().lemma_filter_len(|e: u32| cmp_key(e) == k);
    assert(key_class(Seq::<u32>::empty(), k) =~= Seq::<u32>::empty());
}

/// Appending one element extends exactly its own key class.
pub proof fn lemma_key_class_push(t: Seq<u32>, x: u32, k: u32)
    ensures
        key_class(t.push(x), k) == (if cmp_key(x) == k {
            key_class(t, k).push(x)
        } else {
            key_class(t, k)
        }),
{
    t.lemma_filter_push(x, |e: u32| cmp_key(e) == k);
}

/// Key classes distribute over concatenation.
pub proof fn lemma_key_class_concat(a: Seq<u32>, b: Seq<u32>, k: u32)
    ensures
        key_class(a + b, k) == key_class(a, k) + key_class(b, k),
{
    Seq::<u32>::filter_distributes_over_add(a, b, |e: u32| cmp_key(e) == k);
}

/// A sequence with no element of key `k` has an empty class for `k`.
pub proof fn lemma_key_class_none(s: Seq<u32>, k: u32)
    requires
        forall|i: int| 0 <= i < s.len() ==> cmp_key(#[trigger] s[i]) != k,
    ensures
        key_class(s, k) == Seq::<u32>::empty(),
{
    s.lemma_all_neg_filter_empty(|e: u32| cmp_key(e) == k);
}

/// Splitting a key class at the first element of the sequence.
pub proof fn lemma_key_class_split_first(s: Seq<u32>, k: u32)
    requires
        s.len() > 0,
    ensures
        key_class(s, k) == (if cmp_key(s[0]) == k {
            seq![s[0]] + key_class(s.drop_first(), k)
        } else {
            key_class(s.drop_first(), k)
        }),
{
    assert(s =~= seq![s[0]] + s.drop_first());
    lemma_key_class_concat(seq![s[0]], s.drop_first(), k);
    assert(seq![s[0]] =~= Seq::<u32>::empty().push(s[0]));
    lemma_key_class_push(Seq::<u32>::empty(), s[0], k);
    lemma_key_class_empty(k);
    if cmp_key(s[0]) == k {
        assert(key_class(seq![s[0]], k) =~= seq![s[0]]);
        assert(key_class(s, k) =~= seq![s[0]] + key_class(s.drop_first(), k));
    } else {
        assert(key_class(seq![s[0]], k) =~= Seq::<u32>::empty());
        assert(key_class(s, k) =~= key_class(s.drop_first(), k));
    }
}

/// A non-empty key class comes from some element with that key.
pub proof fn lemma_key_class_elem(s: Seq<u32>, k: u32)
    requires
        key_class(s, k).len() > 0,
    ensures
        exists|w: int| 0 <= w < s.len() && cmp_key(#[trigger] s[w]) == k,
{
    let pred = |e: u32| cmp_key(e) == k;
    s.lemma_filter_pred(pred, 0);
    assert(key_class(s, k).contains(key_class(s, k)[0]));
    s.lemma_filter_contains_rev(pred, key_class(s, k)[0]);
    let w = choose|w: int| 0 <= w < s.len() && s[w] == key_class(s, k)[0];
    assert(cmp_key(s[w]) == k);
}

/// A stable sort's output is unique: two arrays that are both
/// non-decreasing by comparison key and whose key classes coincide are
/// bit-for-bit equal. Through the stable branch's `same_key_order`
/// clause this makes its output fully determined: it equals any
/// reference stable sort of the same input byte for byte, and sorting a
/// second time returns the first result unchanged.
pub proof fn lemma_stable_sort_unique(a: Seq<u32>, b: Seq<u32>)
    requires
        sorted_cmp_keys(a),
        sorted_cmp_keys(b),
        same_key_order(a, b),
    ensures
        a == b,
    decreases a.len(),
{
    if a.len() == 0 {
        if b.len() > 0 {
            let k0 = cmp_key(b[0]);
            lemma_key_class_split_first(b, k0);
            lemma_key_class_none(a, k0);
            assert(key_class(a, k0).len() == 0);
            assert(key_class(b, k0).len() > 0);
            assert(false);
        }
        assert(a =~= b);
    } else if b.len() == 0 {
        let k0 = cmp_key(a[0]);
        lemma_key_class_split_first(a, k0);
        lemma_key_class_none(b, k0);
        assert(false);
    } else {
        let ka = cmp_key(a[0]);
        let kb = cmp_key(b[0]);
        lemma_key_class_split_first(a, ka);
        lemma_key_class_split_first(b, kb);
        assert(key_class(b, ka).len() > 0);
        lemma_key_class_elem(b, ka);
        let wb = choose|w: int| 0 <= w < b.len() && cmp_key(#[trigger] b[w]) == ka;
        assert(kb <= ka);
        assert(key_class(a, kb).len() > 0);
        lemma_key_class_elem(a, kb);
        let wa = choose|w: int| 0 <= w < a.len() && cmp_key(#[trigger] a[w]) == kb;
        assert(ka <= kb);
        assert(ka == kb);
        assert(key_class(a, ka)[0] == a[0]);
        assert(key_class(b, ka)[0] == b[0]);
        assert(a[0] == b[0]);
        assert forall|k: u32| #[trigger] key_class(a.drop_first(), k) == #[trigger] key_class(
            b.drop_first(),
            k,
        ) by {
            lemma_key_class_split_first(a, k);
            lemma_key_class_split_first(b, k);
            if cmp_key(a[0]) == k {
                assert(seq![a[0]] + key_class(a.drop_first(), k) == seq![b[0]] + key_class(
                    b.drop_first(),
                    k,
                ));
                let xx = key_class(a.drop_first(), k);
                let yy = key_class(b.drop_first(), k);
                assert((seq![a[0]] + xx).len() == (seq![b[0]] + yy).len());
                assert forall|w: int| 0 <= w < xx.len() implies xx[w] == yy[w] by {
                    assert(xx[w] == (seq![a[0]] + xx)[w + 1]);
                    assert(yy[w] == (seq![b[0]] + yy)[w + 1]);
                }
                assert(xx =~= yy);
            }
        }
        assert(sorted_cmp_keys(a.drop_first())) by {
            assert forall|i: int, j: int|
                0 <= i <= j < a.drop_first().len() implies cmp_key(
                #[trigger] a.drop_first()[i],
            ) <= cmp_key(#[trigger] a.drop_first()[j]) by {
                assert(a.drop_first()[i] == a[i + 1] && a.drop_first()[j] == a[j + 1]);
            }
        }
        assert(sorted_cmp_keys(b.drop_first())) by {
            assert forall|i: int, j: int|
                0 <= i <= j < b.drop_first().len() implies cmp_key(
                #[trigger] b.drop_first()[i],
            ) <= cmp_key(#[trigger] b.drop_first()[j]) by {
                assert(b.drop_first()[i] == b[i + 1] && b.drop_first()[j] == b[j + 1]);
            }
        }
        lemma_stable_sort_unique(a.drop_first(), b.drop_first());
        assert(a =~= seq![a[0]] + a.drop_first());
        assert(b =~= seq![b[0]] + b.drop_first());
        assert(a =~= b);
    }
}

/// Two sequences with the same multiset draw on the same elements.
pub proof fn lemma_multiset_elems(a: Seq<u32>, b: Seq<u32>)
    requires
        a.to_multiset() == b.to_multiset(),
    ensures
        forall|i: int| 0 <= i < b.len() ==> a.contains(#[trigger] b[i]),
{
    broadcast use vstd::seq_lib::group_to_multiset_ensures;

    assert forall|i: int| 0 <= i < b.len() implies a.contains(#[trigger] b[i]) by {
        assert(b.contains(b[i]));
        assert(b.to_multiset().count(b[i]) > 0);
    }
}

/// NaN-freedom is a property of the multiset alone.
pub proof fn lemma_nan_free_multiset(a: Seq<u32>, b: Seq<u32>)
    requires
        a.to_multiset() == b.to_multiset(),
        nan_free(a),
    ensures
        nan_free(b),
{
    lemma_multiset_elems(a, b);
    assert forall|i: int| 0 <= i < b.len() implies !is_nan_bits(#[trigger] b[i]) by {
        assert(a.contains(b[i]));
        let j = choose|j: int| 0 <= j < a.len() && a[j] == b[i];
        assert(!is_nan_bits(a[j]));
    }
}

} // verus!
