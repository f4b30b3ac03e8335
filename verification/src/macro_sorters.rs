//! The full-array backends for float bit patterns: a linear-time radix
//! sort over the order-preserving key transform, and the
//! comparison-based sorts (stable merge sort, and a depth-budgeted
//! quicksort that falls back to heap-sort) built on the NaN-as-equal
//! comparator.

use vstd::prelude::*;
use vstd::multiset::Multiset;

use crate::float_bits::{
    adjacent_le, cmp_key, gt_bits, gt_exec, is_nan_exec, is_nan_bits, nan_free, sorted_cmp_keys,
    key_class, same_key_order, lemma_key_class_push, lemma_key_class_concat, lemma_key_class_none,
    lemma_nan_free_multiset, lemma_multiset_elems, lemma_sorted_cmp_implies_adjacent,
    lemma_adjacent_at,
};
use crate::micro_sorters::{alpha_dev_sort, lemma_swap_multiset};
use crate::MICRO_SORTER_THRESHOLD;

verus! {

/// Pushing an element onto a merge output tracks pushing it onto either
/// input prefix, at the multiset level.
proof fn lemma_push_concat_multiset(r: Seq<u32>, s: Seq<u32>, t: Seq<u32>, x: u32)
    requires
        r.to_multiset() == (s + t).to_multiset(),
    ensures
        r.push(x).to_multiset() == (s.push(x) + t).to_multiset(),
        r.push(x).to_multiset() == (s + t.push(x)).to_multiset(),
{
    broadcast use vstd::seq_lib::group_to_multiset_ensures;
    broadcast use vstd::seq_lib::lemma_multiset_commutative;
    broadcast use vstd::multiset::group_multiset_axioms;

    assert(r.push(x).to_multiset() =~= r.to_multiset().insert(x));
    assert((s.push(x) + t).to_multiset() =~= s.to_multiset().insert(x).add(t.to_multiset()));
    assert((s + t.push(x)).to_multiset() =~= s.to_multiset().add(t.to_multiset().insert(x)));
    assert(r.push(x).to_multiset() =~= (s.push(x) + t).to_multiset());
    assert(r.push(x).to_multiset() =~= (s + t.push(x)).to_multiset());
}

/// Appending an element no smaller than the current last keeps the
/// adjacent non-decreasing shape.
proof fn lemma_adjacent_push(r: Seq<u32>, x: u32)
    requires
        adjacent_le(r),
        r.len() > 0 ==> !gt_bits(r.last(), x),
    ensures
        adjacent_le(r.push(x)),
{
    assert forall|i: int| 0 < i < r.push(x).len() implies !(#[trigger] gt_bits(
        r.push(x)[i - 1],
        r.push(x)[i],
    )) by {
        if i < r.len() {
            assert(r.push(x)[i - 1] == r[i - 1] && r.push(x)[i] == r[i]);
            assert(!gt_bits(r[i - 1], r[i]));
        } else {
            assert(r.push(x)[i - 1] == r.last() && r.push(x)[i] == x);
        }
    }
}

/// Taking the left head in a merge extends the left prefix's classes;
/// every equal-key element already emitted from the right is strictly
/// below it, so no class order is disturbed.
proof fn lemma_merge_take_left(av: Seq<u32>, bv: Seq<u32>, r: Seq<u32>, i: int, j: int)
    requires
        0 <= i < av.len(),
        0 <= j <= bv.len(),
        forall|k: u32| #[trigger] key_class(r, k) == key_class(av.take(i), k) + key_class(
            bv.take(j),
            k,
        ),
        forall|w: int| 0 <= w < j ==> cmp_key(#[trigger] bv[w]) < cmp_key(av[i]),
    ensures
        forall|k: u32| #[trigger] key_class(r.push(av[i]), k) == key_class(av.take(i + 1), k)
            + key_class(bv.take(j), k),
{
    let x = av[i];
    assert forall|k: u32| #[trigger] key_class(r.push(x), k) == key_class(av.take(i + 1), k)
        + key_class(bv.take(j), k) by {
        lemma_key_class_push(r, x, k);
        assert(av.take(i).push(x) =~= av.take(i + 1));
        lemma_key_class_push(av.take(i), x, k);
        if cmp_key(x) == k {
            assert forall|w: int|
                0 <= w < bv.take(j).len() implies cmp_key(#[trigger] bv.take(j)[w]) != k by {
                assert(bv.take(j)[w] == bv[w]);
            }
            lemma_key_class_none(bv.take(j), k);
            assert(key_class(r.push(x), k) =~= key_class(av.take(i + 1), k) + key_class(
                bv.take(j),
                k,
            ));
        } else {
            assert(key_class(r.push(x), k) =~= key_class(av.take(i + 1), k) + key_class(
                bv.take(j),
                k,
            ));
        }
    }
}

/// Taking the right head in a merge extends the right prefix's classes.
proof fn lemma_merge_take_right(av: Seq<u32>, bv: Seq<u32>, r: Seq<u32>, i: int, j: int)
    requires
        0 <= i <= av.len(),
        0 <= j < bv.len(),
        forall|k: u32| #[trigger] key_class(r, k) == key_class(av.take(i), k) + key_class(
            bv.take(j),
            k,
        ),
    ensures
        forall|k: u32| #[trigger] key_class(r.push(bv[j]), k) == key_class(av.take(i), k)
            + key_class(bv.take(j + 1), k),
{
    let y = bv[j];
    assert forall|k: u32| #[trigger] key_class(r.push(y), k) == key_class(av.take(i), k)
        + key_class(bv.take(j + 1), k) by {
        lemma_key_class_push(r, y, k);
        assert(bv.take(j).push(y) =~= bv.take(j + 1));
        lemma_key_class_push(bv.take(j), y, k);
        assert(key_class(r.push(y), k) =~= key_class(av.take(i), k) + key_class(
            bv.take(j + 1),
            k,
        ));
    }
}

/// Merge two runs, taking from the left on ties or incomparable pairs, so
/// the merge is stable. Sortedness of the result is guaranteed whenever
/// both inputs are NaN-free and sorted.
fn merge_bits(a: &Vec<u32>, b: &Vec<u32>) -> (r: Vec<u32>)
    ensures
        r@.len() == a@.len() + b@.len(),
        r@.to_multiset() == (a@ + b@).to_multiset(),
        nan_free(a@) && nan_free(b@) && sorted_cmp_keys(a@) && sorted_cmp_keys(b@)
            ==> sorted_cmp_keys(r@) && same_key_order(a@ + b@, r@),
        adjacent_le(a@) && adjacent_le(b@) ==> adjacent_le(r@),
{
    broadcast use vstd::seq_lib::group_to_multiset_ensures;
    broadcast use vstd::seq_lib::lemma_multiset_commutative;
    broadcast use vstd::multiset::group_multiset_axioms;

    let ghost cond = nan_free(a@) && nan_free(b@) && sorted_cmp_keys(a@) && sorted_cmp_keys(b@);
    let ghost acond = adjacent_le(a@) && adjacent_le(b@);
    let mut r: Vec<u32> = Vec::new();
    let mut i: usize = 0;
    let mut j: usize = 0;
    while i < a.len() && j < b.len()
        invariant
            i <= a@.len(),
            j <= b@.len(),
            r@.len() == i + j,
            r@.to_multiset() == (a@.take(i as int) + b@.take(j as int)).to_multiset(),
            cond == (nan_free(a@) && nan_free(b@) && sorted_cmp_keys(a@) && sorted_cmp_keys(b@)),
            cond ==> sorted_cmp_keys(r@),
            cond ==> forall|k: int|
                0 <= k < r@.len() && i < a@.len() ==> cmp_key(#[trigger] r@[k]) <= cmp_key(
                    a@[i as int],
                ),
            cond ==> forall|k: int|
                0 <= k < r@.len() && j < b@.len() ==> cmp_key(#[trigger] r@[k]) <= cmp_key(
                    b@[j as int],
                ),
            cond ==> forall|k: u32| #[trigger] key_class(r@, k) == key_class(
                a@.take(i as int),
                k,
            ) + key_class(b@.take(j as int), k),
            cond ==> forall|w: int|
                0 <= w < j && i < a@.len() ==> cmp_key(#[trigger] b@[w]) < cmp_key(a@[i as int]),
            acond == (adjacent_le(a@) && adjacent_le(b@)),
            acond ==> adjacent_le(r@),
            acond && r@.len() > 0 && i < a@.len() ==> !gt_bits(r@.last(), a@[i as int]),
            acond && r@.len() > 0 && j < b@.len() ==> !gt_bits(r@.last(), b@[j as int]),
        decreases a@.len() + b@.len() - i - j,
    {
        let x = a[i];
        let y = b[j];
        if !gt_exec(x, y) {
            proof {
                lemma_push_concat_multiset(r@, a@.take(i as int), b@.take(j as int), x);
                assert(a@.take(i as int).push(x) =~= a@.take(i as int + 1));
                if cond {
                    lemma_merge_take_left(a@, b@, r@, i as int, j as int);
                }
                if acond {
                    lemma_adjacent_push(r@, x);
                    if i + 1 < a@.len() {
                        lemma_adjacent_at(a@, i as int + 1);
                    }
                }
            }
            r.push(x);
            i += 1;
        } else {
            proof {
                lemma_push_concat_multiset(r@, a@.take(i as int), b@.take(j as int), y);
                assert(b@.take(j as int).push(y) =~= b@.take(j as int + 1));
                if cond {
                    lemma_merge_take_right(a@, b@, r@, i as int, j as int);
                }
                if acond {
                    assert(r@.len() > 0 ==> !gt_bits(r@.last(), y));
                    lemma_adjacent_push(r@, y);
                    if j + 1 < b@.len() {
                        lemma_adjacent_at(b@, j as int + 1);
                    }
                    assert(!gt_bits(y, x));
                }
            }
            r.push(y);
            j += 1;
        }
    }
    while i < a.len()
        invariant
            i <= a@.len(),
            j <= b@.len(),
            i < a@.len() ==> j == b@.len(),
            r@.len() == i + j,
            r@.to_multiset() == (a@.take(i as int) + b@.take(j as int)).to_multiset(),
            cond == (nan_free(a@) && nan_free(b@) && sorted_cmp_keys(a@) && sorted_cmp_keys(b@)),
            cond ==> sorted_cmp_keys(r@),
            cond ==> forall|k: int|
                0 <= k < r@.len() && i < a@.len() ==> cmp_key(#[trigger] r@[k]) <= cmp_key(
                    a@[i as int],
                ),
            cond ==> forall|k: int|
                0 <= k < r@.len() && j < b@.len() ==> cmp_key(#[trigger] r@[k]) <= cmp_key(
                    b@[j as int],
                ),
            cond ==> forall|k: u32| #[trigger] key_class(r@, k) == key_class(
                a@.take(i as int),
                k,
            ) + key_class(b@.take(j as int), k),
            cond ==> forall|w: int|
                0 <= w < j && i < a@.len() ==> cmp_key(#[trigger] b@[w]) < cmp_key(a@[i as int]),
            acond == (adjacent_le(a@) && adjacent_le(b@)),
            acond ==> adjacent_le(r@),
            acond && r@.len() > 0 && i < a@.len() ==> !gt_bits(r@.last(), a@[i as int]),
            acond && r@.len() > 0 && j < b@.len() ==> !gt_bits(r@.last(), b@[j as int]),
        decreases a@.len() - i,
    {
        let x = a[i];
        proof {
            lemma_push_concat_multiset(r@, a@.take(i as int), b@.take(j as int), x);
            assert(a@.take(i as int).push(x) =~= a@.take(i as int + 1));
            if cond {
                lemma_merge_take_left(a@, b@, r@, i as int, j as int);
            }
            if acond {
                lemma_adjacent_push(r@, x);
                if i + 1 < a@.len() {
                    lemma_adjacent_at(a@, i as int + 1);
                }
            }
        }
        r.push(x);
        i += 1;
    }
    while j < b.len()
        invariant
            i == a@.len(),
            j <= b@.len(),
            r@.len() == i + j,
            r@.to_multiset() == (a@.take(i as int) + b@.take(j as int)).to_multiset(),
            cond == (nan_free(a@) && nan_free(b@) && sorted_cmp_keys(a@) && sorted_cmp_keys(b@)),
            cond ==> sorted_cmp_keys(r@),
            cond ==> forall|k: int|
                0 <= k < r@.len() && j < b@.len() ==> cmp_key(#[trigger] r@[k]) <= cmp_key(
                    b@[j as int],
                ),
            cond ==> forall|k: u32| #[trigger] key_class(r@, k) == key_class(
                a@.take(i as int),
                k,
            ) + key_class(b@.take(j as int), k),
            acond == (adjacent_le(a@) && adjacent_le(b@)),
            acond ==> adjacent_le(r@),
            acond && r@.len() > 0 && j < b@.len() ==> !gt_bits(r@.last(), b@[j as int]),
        decreases b@.len() - j,
    {
        let y = b[j];
        proof {
            lemma_push_concat_multiset(r@, a@.take(i as int), b@.take(j as int), y);
            assert(b@.take(j as int).push(y) =~= b@.take(j as int + 1));
            if cond {
                lemma_merge_take_right(a@, b@, r@, i as int, j as int);
            }
            if acond {
                lemma_adjacent_push(r@, y);
                if j + 1 < b@.len() {
                    lemma_adjacent_at(b@, j as int + 1);
                }
            }
        }
        r.push(y);
        j += 1;
    }
    proof {
        assert(a@.take(i as int) =~= a@);
        assert(b@.take(j as int) =~= b@);
        if cond {
            assert forall|k: u32| #[trigger] key_class(a@ + b@, k) == key_class(r@, k) by {
                lemma_key_class_concat(a@, b@, k);
            }
        }
    }
    r
}

/// Stable merge sort over float bit patterns. On NaN-free input the
/// result is non-decreasing under the float order and every equal-key
/// run keeps its input order — which pins the output bit for bit (see
/// `lemma_stable_sort_unique`). On any input it is a permutation and
/// the call terminates.
pub fn merge_sort_bits(v: Vec<u32>) -> (r: Vec<u32>)
    ensures
        r@.len() == v@.len(),
        r@.to_multiset() == v@.to_multiset(),
        adjacent_le(r@),
        nan_free(v@) ==> sorted_cmp_keys(r@) && same_key_order(v@, r@),
    decreases v@.len(),
{
    broadcast use vstd::seq_lib::lemma_multiset_commutative;
    broadcast use vstd::multiset::group_multiset_axioms;

    let ghost v0 = v@;
    let n = v.len();
    if n <= 1 {
        return v;
    }
    let mut left = v;
    let right = left.split_off(n / 2);
    let ghost lv = left@;
    let ghost rv = right@;
    proof {
        assert(lv + rv =~= v0);
        assert(nan_free(v0) ==> nan_free(lv) && nan_free(rv));
    }
    let sorted_left = merge_sort_bits(left);
    let sorted_right = merge_sort_bits(right);
    proof {
        if nan_free(v0) {
            lemma_nan_free_multiset(v0.take(n as int / 2), sorted_left@);
            lemma_nan_free_multiset(v0.skip(n as int / 2), sorted_right@);
        }
    }
    let r = merge_bits(&sorted_left, &sorted_right);
    proof {
        assert(r@.to_multiset() =~= v0.to_multiset());
        if nan_free(v0) {
            assert forall|k: u32| #[trigger] key_class(v0, k) == key_class(r@, k) by {
                lemma_key_class_concat(lv, rv, k);
                lemma_key_class_concat(sorted_left@, sorted_right@, k);
                assert(key_class(lv, k) == key_class(sorted_left@, k));
                assert(key_class(rv, k) == key_class(sorted_right@, k));
                assert(key_class(sorted_left@ + sorted_right@, k) == key_class(r@, k));
            }
        }
    }
    r
}

/// Plain element-for-element copy.
fn copy_bits(v: &Vec<u32>) -> (c: Vec<u32>)
    ensures
        c@ == v@,
{
    let mut c: Vec<u32> = Vec::new();
    let mut i: usize = 0;
    while i < v.len()
        invariant
            i <= v@.len(),
            c@ =~= v@.take(i as int),
        decreases v@.len() - i,
    {
        c.push(v[i]);
        i += 1;
    }
    proof {
        assert(v@.take(v@.len() as int) =~= v@);
    }
    c
}

/// One quicksort step. Picks the median of the first, middle and last
/// elements as pivot; reports `None` exactly when one of the three
/// candidates is a NaN (some pairwise comparison is ambiguous), in which
/// case the caller falls back to a full safe sort. Otherwise splits the
/// remaining elements by a single forward scan: not-greater to the left,
/// greater to the right.
fn partition(v: &Vec<u32>) -> (res: Option<(Vec<u32>, u32, Vec<u32>)>)
    requires
        v@.len() >= 3,
    ensures
        res is None <==> (is_nan_bits(v@[0]) || is_nan_bits(v@[v@.len() as int / 2]) || is_nan_bits(
            v@[v@.len() - 1],
        )),
        res matches Some((l, p, r)) ==> {
            &&& l@.len() + r@.len() + 1 == v@.len()
            &&& (l@ + seq![p] + r@).to_multiset() == v@.to_multiset()
            &&& forall|k: int| 0 <= k < l@.len() ==> !gt_bits(#[trigger] l@[k], p)
            &&& forall|k: int| 0 <= k < r@.len() ==> gt_bits(#[trigger] r@[k], p)
        },
{
    broadcast use vstd::seq_lib::group_to_multiset_ensures;
    broadcast use vstd::seq_lib::lemma_multiset_commutative;
    broadcast use vstd::multiset::group_multiset_axioms;

    let n = v.len();
    let mid = n / 2;
    let last = n - 1;
    if is_nan_exec(v[0]) || is_nan_exec(v[mid]) || is_nan_exec(v[last]) {
        return None;
    }
    // Median of the three candidates; only performance depends on the choice.
    let k0 = crate::float_bits::cmp_key_exec(v[0]);
    let km = crate::float_bits::cmp_key_exec(v[mid]);
    let kl = crate::float_bits::cmp_key_exec(v[last]);
    let p_idx: usize = if (k0 <= km && km <= kl) || (kl <= km && km <= k0) {
        mid
    } else if (km <= k0 && k0 <= kl) || (kl <= k0 && k0 <= km) {
        0
    } else {
        last
    };
    let pivot = v[p_idx];

    // The elements around the pivot, in input order.
    let mut rest: Vec<u32> = Vec::new();
    let mut i: usize = 0;
    while i < n
        invariant
            i <= n,
            n == v@.len(),
            p_idx < n,
            i <= p_idx ==> rest@ =~= v@.take(i as int),
            i > p_idx ==> rest@ =~= v@.subrange(0, p_idx as int) + v@.subrange(
                p_idx as int + 1,
                i as int,
            ),
        decreases n - i,
    {
        if i != p_idx {
            proof {
                if i > p_idx {
                    assert(v@.subrange(p_idx as int + 1, i as int).push(v@[i as int]) =~= v@
                        .subrange(p_idx as int + 1, i as int + 1));
                } else {
                    assert(v@.take(i as int).push(v@[i as int]) =~= v@.take(i as int + 1));
                }
            }
            rest.push(v[i]);
        } else {
            proof {
                assert(v@.subrange(0, p_idx as int) =~= v@.take(p_idx as int));
                assert(v@.subrange(p_idx as int + 1, i as int + 1) =~= Seq::<u32>::empty());
                assert(rest@ =~= v@.subrange(0, p_idx as int) + v@.subrange(
                    p_idx as int + 1,
                    i as int + 1,
                ));
            }
        }
        i += 1;
    }
    proof {
        assert(rest@ =~= v@.remove(p_idx as int));
        vstd::seq_lib::to_multiset_remove(v@, p_idx as int);
    }

    let mut left: Vec<u32> = Vec::new();
    let mut right: Vec<u32> = Vec::new();
    let m = rest.len();
    let mut j: usize = 0;
    while j < m
        invariant
            j <= m,
            m == rest@.len(),
            left@.len() + right@.len() == j,
            left@.to_multiset().add(right@.to_multiset()) == rest@.take(j as int).to_multiset(),
            forall|k: int| 0 <= k < left@.len() ==> !gt_bits(#[trigger] left@[k], pivot),
            forall|k: int| 0 <= k < right@.len() ==> gt_bits(#[trigger] right@[k], pivot),
        decreases m - j,
    {
        let x = rest[j];
        proof {
            assert(rest@.take(j as int).push(x) =~= rest@.take(j as int + 1));
            vstd::seq_lib::to_multiset_build(rest@.take(j as int), x);
            vstd::seq_lib::to_multiset_build(left@, x);
            vstd::seq_lib::to_multiset_build(right@, x);
            assert(left@.push(x).to_multiset().add(right@.to_multiset()) =~= rest@.take(
                j as int + 1,
            ).to_multiset());
            assert(left@.to_multiset().add(right@.push(x).to_multiset()) =~= rest@.take(
                j as int + 1,
            ).to_multiset());
        }
        if gt_exec(x, pivot) {
            right.push(x);
        } else {
            left.push(x);
        }
        j += 1;
    }
    proof {
        assert(rest@.take(m as int) =~= rest@);
        assert((left@ + seq![pivot] + right@).to_multiset() =~= v@.to_multiset()) by {
            assert(v@.contains(v@[p_idx as int]));
            vstd::seq_lib::to_multiset_contains(v@, pivot);
            assert(v@.to_multiset().count(pivot) > 0);
            vstd::seq_lib::to_multiset_build(Seq::<u32>::empty(), pivot);
            assert(Seq::<u32>::empty().to_multiset() =~= Multiset::<u32>::empty());
            assert(v@.to_multiset().remove(pivot).insert(pivot) =~= v@.to_multiset());
            assert(rest@.to_multiset() == v@.to_multiset().remove(pivot));
            assert((left@ + seq![pivot]).to_multiset() =~= left@.to_multiset().add(
                seq![pivot].to_multiset(),
            ));
            assert((left@ + seq![pivot] + right@).to_multiset() =~= (left@
                + seq![pivot]).to_multiset().add(right@.to_multiset()));
            assert(seq![pivot] =~= Seq::<u32>::empty().push(pivot));
            assert(seq![pivot].to_multiset() =~= Multiset::<u32>::empty().insert(pivot));
        }
    }
    Some((left, pivot, right))
}

/// The bounded quicksort state machine: small ranges go to the
/// micro-sorter, an exhausted depth budget falls back to heap-sort,
/// ambiguous pivot candidates (NaN) degrade to the full safe stable
/// sort, and otherwise the range is partitioned and both sides are
/// sorted with budget - 1.
fn introsort_recursive(v: Vec<u32>, limit: u32) -> (r: Vec<u32>)
    ensures
        r@.len() == v@.len(),
        r@.to_multiset() == v@.to_multiset(),
        nan_free(v@) ==> sorted_cmp_keys(r@),
    decreases v@.len(),
{
    broadcast use vstd::seq_lib::group_to_multiset_ensures;
    broadcast use vstd::seq_lib::lemma_multiset_commutative;
    broadcast use vstd::multiset::group_multiset_axioms;

    let ghost v0 = v@;
    let n = v.len();
    if n <= MICRO_SORTER_THRESHOLD {
        let mut t = v;
        alpha_dev_sort(&mut t);
        return t;
    }
    if limit == 0 {
        // Depth budget exhausted: heap-sort caps the worst case at O(n log n).
        return heapsort(v);
    }
    match partition(&v) {
        None => merge_sort_bits(v),
        Some((left, pivot, right)) => {
            let ghost lseq = left@;
            let ghost rseq = right@;
            proof {
                if nan_free(v0) {
                    lemma_multiset_elems(v0, lseq + seq![pivot] + rseq);
                    assert forall|k: int| 0 <= k < lseq.len() implies !is_nan_bits(
                        #[trigger] lseq[k],
                    ) by {
                        assert((lseq + seq![pivot] + rseq)[k] == lseq[k]);
                        assert(v0.contains(lseq[k]));
                        let w = choose|w: int| 0 <= w < v0.len() && v0[w] == lseq[k];
                    }
                    assert forall|k: int| 0 <= k < rseq.len() implies !is_nan_bits(
                        #[trigger] rseq[k],
                    ) by {
                        assert((lseq + seq![pivot] + rseq)[lseq.len() + 1 + k] == rseq[k]);
                        assert(v0.contains(rseq[k]));
                        let w = choose|w: int| 0 <= w < v0.len() && v0[w] == rseq[k];
                    }
                    assert(!is_nan_bits(pivot)) by {
                        assert((lseq + seq![pivot] + rseq)[lseq.len() as int] == pivot);
                        assert(v0.contains(pivot));
                        let w = choose|w: int| 0 <= w < v0.len() && v0[w] == pivot;
                    }
                }
            }
            let ls = introsort_recursive(left, limit - 1);
            let rs = introsort_recursive(right, limit - 1);
            let mut out = ls;
            let ghost lbase = out@;
            out.push(pivot);
            let mut rtail = rs;
            let ghost rsorted = rtail@;
            out.append(&mut rtail);
            proof {
                assert(out@ =~= lbase + seq![pivot] + rsorted);
                lemma_multiset_elems(lseq, lbase);
                lemma_multiset_elems(rseq, rsorted);
                assert(out@.to_multiset() =~= v0.to_multiset()) by {
                    assert((lbase + seq![pivot] + rsorted).to_multiset() =~= (lseq + seq![pivot]
                        + rseq).to_multiset());
                }
                if nan_free(v0) {
                    lemma_nan_free_multiset(lseq, lbase);
                    assert forall|a: int, b: int| 0 <= a <= b < out@.len() implies cmp_key(
                        #[trigger] out@[a],
                    ) <= cmp_key(#[trigger] out@[b]) by {
                        let ll = lbase.len() as int;
                        if a < ll {
                            let wa = choose|w: int| 0 <= w < lseq.len() && lseq[w] == lbase[a];
                            assert(!gt_bits(lseq[wa], pivot));
                        }
                        if b < ll {
                            let wb = choose|w: int| 0 <= w < lseq.len() && lseq[w] == lbase[b];
                            assert(!gt_bits(lseq[wb], pivot));
                        }
                        if a > ll {
                            let wa = choose|w: int|
                                0 <= w < rseq.len() && rseq[w] == rsorted[a - ll - 1];
                            assert(gt_bits(rseq[wa], pivot));
                        }
                        if b > ll {
                            let wb = choose|w: int|
                                0 <= w < rseq.len() && rseq[w] == rsorted[b - ll - 1];
                            assert(gt_bits(rseq[wb], pivot));
                        }
                    }
                }
            }
            out
        },
    }
}

/// Floor of the base-2 logarithm; used only to size the depth budget.
pub(crate) fn log2_floor(n: usize) -> (r: u32)
    ensures
        r <= 64,
{
    let mut m = n;
    let mut r: u32 = 0;
    while m > 1
        invariant
            r <= 64,
        decreases m,
    {
        m = m / 2;
        if r < 64 {
            r += 1;
        }
    }
    r
}

/// Unstable comparison backend: micro-sorter below the threshold, else
/// the quicksort state machine with a 2 * floor(log2 n) depth budget.
pub fn introsort(v: Vec<u32>) -> (r: Vec<u32>)
    ensures
        r@.len() == v@.len(),
        r@.to_multiset() == v@.to_multiset(),
        nan_free(v@) ==> sorted_cmp_keys(r@),
{
    if v.len() <= MICRO_SORTER_THRESHOLD {
        let mut t = v;
        alpha_dev_sort(&mut t);
        t
    } else {
        let limit = 2 * log2_floor(v.len());
        introsort_recursive(v, limit)
    }
}

/// The empty sequence has the empty multiset.
proof fn lemma_empty_to_multiset()
    ensures
        Seq::<u32>::empty().to_multiset() == Multiset::<u32>::empty(),
{
    broadcast use vstd::multiset::group_multiset_axioms;

    assert forall|x: u32| Seq::<u32>::empty().to_multiset().count(x) == 0 by {
        vstd::seq_lib::to_multiset_contains(Seq::<u32>::empty(), x);
    }
    assert(Seq::<u32>::empty().to_multiset() =~= Multiset::<u32>::empty());
}

/// The byte of `x` examined by the radix pass shifting by `shift`.
pub open spec fn byte_at(x: u32, shift: u32) -> u32 {
    (x >> shift) & 0xff
}

/// The elements of `s` whose examined byte is exactly `b`, in order.
pub open spec fn bucket_of(s: Seq<u32>, shift: u32, b: u32) -> Seq<u32> {
    s.filter(|e: u32| byte_at(e, shift) == b)
}

/// The elements of `s` whose examined byte is below `b`, in order.
pub open spec fn below_of(s: Seq<u32>, shift: u32, b: u32) -> Seq<u32> {
    s.filter(|e: u32| byte_at(e, shift) < b)
}

/// Buckets 0 .. b laid out one after the other: what one stable counting
/// pass produces, restricted to bytes below `b`.
pub open spec fn buckets_prefix(s: Seq<u32>, shift: u32, b: int) -> Seq<u32>
    decreases b,
{
    if b <= 0 {
        Seq::<u32>::empty()
    } else {
        buckets_prefix(s, shift, b - 1) + bucket_of(s, shift, (b - 1) as u32)
    }
}

/// Non-decreasing once every element is masked.
pub open spec fn masked_sorted(s: Seq<u32>, mask: u32) -> bool {
    forall|i: int, j: int| 0 <= i <= j < s.len() ==> (#[trigger] s[i]) & mask <= (#[trigger] s[j])
        & mask
}

/// How one pass widens the sorted suffix of bits: if the bytes differ the
/// wider masks order the same way, and equal bytes defer to the narrower
/// mask. The mask triples are exactly the four passes' configurations.
proof fn lemma_byte_order(x: u32, y: u32, shift: u32, prev: u32, next: u32)
    requires
        (shift == 0 && prev == 0 && next == 0xff) || (shift == 8 && prev == 0xff && next
            == 0xffff) || (shift == 16 && prev == 0xffff && next == 0xff_ffff) || (shift == 24
            && prev == 0xff_ffff && next == 0xffff_ffff),
    ensures
        byte_at(x, shift) < byte_at(y, shift) ==> x & next <= y & next,
        byte_at(x, shift) == byte_at(y, shift) && x & prev <= y & prev ==> x & next <= y & next,
{
    if shift == 0 {
        assert(((x >> 0u32) & 0xff < (y >> 0u32) & 0xff ==> x & 0xffu32 <= y & 0xffu32) && ((x
            >> 0u32) & 0xff == (y >> 0u32) & 0xff && x & 0u32 <= y & 0u32 ==> x & 0xffu32 <= y
            & 0xffu32)) by (bit_vector);
    } else if shift == 8 {
        assert(((x >> 8u32) & 0xff < (y >> 8u32) & 0xff ==> x & 0xffffu32 <= y & 0xffffu32) && ((x
            >> 8u32) & 0xff == (y >> 8u32) & 0xff && x & 0xffu32 <= y & 0xffu32 ==> x & 0xffffu32
            <= y & 0xffffu32)) by (bit_vector);
    } else if shift == 16 {
        assert(((x >> 16u32) & 0xff < (y >> 16u32) & 0xff ==> x & 0xff_ffffu32 <= y
            & 0xff_ffffu32) && ((x >> 16u32) & 0xff == (y >> 16u32) & 0xff && x & 0xffffu32 <= y
            & 0xffffu32 ==> x & 0xff_ffffu32 <= y & 0xff_ffffu32)) by (bit_vector);
    } else {
        assert(((x >> 24u32) & 0xff < (y >> 24u32) & 0xff ==> x & 0xffff_ffffu32 <= y
            & 0xffff_ffffu32) && ((x >> 24u32) & 0xff == (y >> 24u32) & 0xff && x & 0xff_ffffu32
            <= y & 0xff_ffffu32 ==> x & 0xffff_ffffu32 <= y & 0xffff_ffffu32)) by (bit_vector);
    }
}

/// Every examined byte is below 256.
proof fn lemma_byte_bound(x: u32, shift: u32)
    ensures
        byte_at(x, shift) < 256,
{
    assert((x >> shift) & 0xff < 256) by (bit_vector);
}

/// Appending one element extends exactly its own bucket.
proof fn lemma_bucket_push(t: Seq<u32>, x: u32, shift: u32, b: u32)
    ensures
        bucket_of(t.push(x), shift, b) == (if byte_at(x, shift) == b {
            bucket_of(t, shift, b).push(x)
        } else {
            bucket_of(t, shift, b)
        }),
{
    t.lemma_filter_push(x, |e: u32| byte_at(e, shift) == b);
}

/// Splitting the below-`b` filter at byte `b - 1`, at the multiset level.
proof fn lemma_filter_split(s: Seq<u32>, shift: u32, b: u32)
    requires
        1 <= b,
    ensures
        below_of(s, shift, b).to_multiset() == below_of(s, shift, (b - 1) as u32).to_multiset().add(
            bucket_of(s, shift, (b - 1) as u32).to_multiset(),
        ),
    decreases s.len(),
{
    broadcast use vstd::multiset::group_multiset_axioms;

    if s.len() == 0 {
        s.lemma_filter_len(|e: u32| byte_at(e, shift) < b);
        s.lemma_filter_len(|e: u32| byte_at(e, shift) < (b - 1) as u32);
        s.lemma_filter_len(|e: u32| byte_at(e, shift) == (b - 1) as u32);
        assert(below_of(s, shift, b) =~= Seq::<u32>::empty());
        assert(below_of(s, shift, (b - 1) as u32) =~= Seq::<u32>::empty());
        assert(bucket_of(s, shift, (b - 1) as u32) =~= Seq::<u32>::empty());
        lemma_empty_to_multiset();
    } else {
        let t = s.drop_last();
        let x = s.last();
        lemma_filter_split(t, shift, b);
        assert(t.push(x) =~= s);
        t.lemma_filter_push(x, |e: u32| byte_at(e, shift) < b);
        t.lemma_filter_push(x, |e: u32| byte_at(e, shift) < (b - 1) as u32);
        t.lemma_filter_push(x, |e: u32| byte_at(e, shift) == (b - 1) as u32);
        vstd::seq_lib::to_multiset_build(below_of(t, shift, b), x);
        vstd::seq_lib::to_multiset_build(below_of(t, shift, (b - 1) as u32), x);
        vstd::seq_lib::to_multiset_build(bucket_of(t, shift, (b - 1) as u32), x);
        assert(below_of(s, shift, b).to_multiset() =~= below_of(
            s,
            shift,
            (b - 1) as u32,
        ).to_multiset().add(bucket_of(s, shift, (b - 1) as u32).to_multiset()));
    }
}

/// The concatenated buckets hold the same elements as the corresponding
/// below-filter.
proof fn lemma_prefix_multiset(s: Seq<u32>, shift: u32, b: int)
    requires
        0 <= b <= 256,
    ensures
        buckets_prefix(s, shift, b).to_multiset() == below_of(s, shift, b as u32).to_multiset(),
    decreases b,
{
    broadcast use vstd::multiset::group_multiset_axioms;

    if b == 0 {
        s.lemma_filter_len(|e: u32| byte_at(e, shift) < 0u32);
        assert forall|i: int| 0 <= i < s.len() implies !(byte_at(#[trigger] s[i], shift)
            < 0u32) by {}
        s.lemma_all_neg_filter_empty(|e: u32| byte_at(e, shift) < 0u32);
        lemma_empty_to_multiset();
        assert(below_of(s, shift, 0u32) =~= Seq::<u32>::empty());
    } else {
        lemma_prefix_multiset(s, shift, b - 1);
        lemma_filter_split(s, shift, b as u32);
        vstd::seq_lib::lemma_multiset_commutative(
            buckets_prefix(s, shift, b - 1),
            bucket_of(s, shift, (b - 1) as u32),
        );
        assert(buckets_prefix(s, shift, b).to_multiset() =~= below_of(
            s,
            shift,
            b as u32,
        ).to_multiset());
    }
}

/// Filtering below 256 keeps everything.
proof fn lemma_below_all(s: Seq<u32>, shift: u32)
    ensures
        below_of(s, shift, 256) == s,
    decreases s.len(),
{
    if s.len() == 0 {
        s.lemma_filter_len(|e: u32| byte_at(e, shift) < 256u32);
        assert(below_of(s, shift, 256) =~= s);
    } else {
        let t = s.drop_last();
        let x = s.last();
        lemma_below_all(t, shift);
        assert(t.push(x) =~= s);
        t.lemma_filter_push(x, |e: u32| byte_at(e, shift) < 256u32);
        lemma_byte_bound(x, shift);
        assert(below_of(s, shift, 256) =~= s);
    }
}

/// A bucket of a masked-sorted sequence is masked-sorted.
proof fn lemma_bucket_sorted(s: Seq<u32>, shift: u32, b: u32, mask: u32)
    requires
        masked_sorted(s, mask),
    ensures
        masked_sorted(bucket_of(s, shift, b), mask),
    decreases s.len(),
{
    let pred = |e: u32| byte_at(e, shift) == b;
    if s.len() == 0 {
        s.lemma_filter_len(pred);
    } else {
        let t = s.drop_last();
        let x = s.last();
        assert(masked_sorted(t, mask));
        lemma_bucket_sorted(t, shift, b, mask);
        assert(t.push(x) =~= s);
        t.lemma_filter_push(x, pred);
        if pred(x) {
            assert forall|i: int, j: int|
                0 <= i <= j < bucket_of(s, shift, b).len() implies (#[trigger] bucket_of(
                s,
                shift,
                b,
            )[i]) & mask <= (#[trigger] bucket_of(s, shift, b)[j]) & mask by {
                let bk = bucket_of(t, shift, b);
                if j == bk.len() {
                    if i < j {
                        assert(bk.contains(bk[i]));
                        t.lemma_filter_contains_rev(pred, bk[i]);
                        let w = choose|w: int| 0 <= w < t.len() && t[w] == bk[i];
                        assert(t[w] & mask <= x & mask);
                    }
                }
            }
        }
    }
}

/// One stable pass widens the sorted mask from `prev` to `next`, and all
/// bytes in the concatenation are below `b`.
proof fn lemma_prefix_sorted(s: Seq<u32>, shift: u32, prev: u32, next: u32, b: int)
    requires
        masked_sorted(s, prev),
        (shift == 0 && prev == 0 && next == 0xff) || (shift == 8 && prev == 0xff && next
            == 0xffff) || (shift == 16 && prev == 0xffff && next == 0xff_ffff) || (shift == 24
            && prev == 0xff_ffff && next == 0xffff_ffff),
        0 <= b <= 256,
    ensures
        masked_sorted(buckets_prefix(s, shift, b), next),
        forall|k: int| 0 <= k < buckets_prefix(s, shift, b).len() ==> byte_at(
            #[trigger] buckets_prefix(s, shift, b)[k],
            shift,
        ) < b,
    decreases b,
{
    if b > 0 {
        lemma_prefix_sorted(s, shift, prev, next, b - 1);
        let pre = buckets_prefix(s, shift, b - 1);
        let bk = bucket_of(s, shift, (b - 1) as u32);
        let whole = buckets_prefix(s, shift, b);
        lemma_bucket_sorted(s, shift, (b - 1) as u32, prev);
        assert forall|k: int| 0 <= k < bk.len() implies byte_at(#[trigger] bk[k], shift) == (b
            - 1) as u32 by {
            s.lemma_filter_pred(|e: u32| byte_at(e, shift) == (b - 1) as u32, k);
        }
        assert(whole =~= pre + bk);
        assert forall|i: int, j: int| 0 <= i <= j < whole.len() implies (#[trigger] whole[i])
            & next <= (#[trigger] whole[j]) & next by {
            if j < pre.len() {
                assert(whole[i] == pre[i] && whole[j] == pre[j]);
            } else if i >= pre.len() {
                assert(whole[i] == bk[i - pre.len()] && whole[j] == bk[j - pre.len()]);
                lemma_byte_order(whole[i], whole[j], shift, prev, next);
            } else {
                assert(whole[i] == pre[i] && whole[j] == bk[j - pre.len()]);
                lemma_byte_order(whole[i], whole[j], shift, prev, next);
            }
        }
    }
}

/// Mapping both sides of a permutation keeps it a permutation.
proof fn lemma_map_multiset(a: Seq<u32>, b: Seq<u32>, f: spec_fn(u32) -> u32)
    requires
        a.to_multiset() == b.to_multiset(),
    ensures
        a.map_values(f).to_multiset() == b.map_values(f).to_multiset(),
    decreases a.len(),
{
    broadcast use vstd::multiset::group_multiset_axioms;
    broadcast use vstd::seq_lib::group_to_multiset_ensures;

    vstd::seq_lib::to_multiset_len(a);
    vstd::seq_lib::to_multiset_len(b);
    if a.len() == 0 {
        assert(a.map_values(f) =~= Seq::<u32>::empty());
        assert(b.map_values(f) =~= Seq::<u32>::empty());
    } else {
        let x = a.last();
        let la = a.len() - 1;
        assert(a.remove(la).to_multiset() == a.to_multiset().remove(x));
        assert(a.contains(x));
        assert(b.to_multiset().count(x) > 0);
        assert(b.contains(x));
        let j = choose|j: int| 0 <= j < b.len() && b[j] == x;
        assert(b.remove(j).to_multiset() == b.to_multiset().remove(x));
        lemma_map_multiset(a.remove(la), b.remove(j), f);
        assert(a.remove(la).map_values(f) =~= a.map_values(f).remove(la));
        assert(b.remove(j).map_values(f) =~= b.map_values(f).remove(j));
        assert(a.map_values(f).remove(la).to_multiset() == a.map_values(f).to_multiset().remove(
            f(x),
        ));
        assert(b.map_values(f).remove(j).to_multiset() == b.map_values(f).to_multiset().remove(
            f(x),
        ));
        assert(a.map_values(f).to_multiset().count(f(x)) > 0) by {
            assert(a.map_values(f)[la] == f(x));
            assert(a.map_values(f).contains(f(x)));
        }
        assert(b.map_values(f).to_multiset().count(f(x)) > 0) by {
            assert(b.map_values(f)[j] == f(x));
            assert(b.map_values(f).contains(f(x)));
        }
        let ma = a.map_values(f).to_multiset();
        let mb = b.map_values(f).to_multiset();
        assert(ma.remove(f(x)) == mb.remove(f(x)));
        assert forall|y: u32| ma.count(y) == mb.count(y) by {
            assert(ma.remove(f(x)).count(y) == mb.remove(f(x)).count(y));
        }
        assert(ma =~= mb);
    }
}

/// Everything is sorted under the empty mask.
proof fn lemma_masked_zero(s: Seq<u32>)
    ensures
        masked_sorted(s, 0),
{
    assert forall|i: int, j: int| 0 <= i <= j < s.len() implies (#[trigger] s[i]) & 0u32 <= (
    #[trigger] s[j]) & 0u32 by {
        let a = s[i];
        let c = s[j];
        assert(a & 0u32 == 0 && c & 0u32 == 0) by (bit_vector);
    }
}

/// What one whole counting pass guarantees: a permutation, and the
/// sorted mask widened by the examined byte.
proof fn lemma_pass_props(sin: Seq<u32>, sout: Seq<u32>, shift: u32, prev: u32, next: u32)
    requires
        sout == buckets_prefix(sin, shift, 256),
        masked_sorted(sin, prev),
        (shift == 0 && prev == 0 && next == 0xff) || (shift == 8 && prev == 0xff && next
            == 0xffff) || (shift == 16 && prev == 0xffff && next == 0xff_ffff) || (shift == 24
            && prev == 0xff_ffff && next == 0xffff_ffff),
    ensures
        sout.to_multiset() == sin.to_multiset(),
        sout.len() == sin.len(),
        masked_sorted(sout, next),
{
    lemma_prefix_multiset(sin, shift, 256);
    lemma_below_all(sin, shift);
    lemma_prefix_sorted(sin, shift, prev, next, 256);
    vstd::seq_lib::to_multiset_len(sout);
    vstd::seq_lib::to_multiset_len(sin);
}

/// After the last pass the keys are in plain unsigned order; undoing the
/// transform gives the input multiset back, sorted by `sort_key`.
proof fn lemma_radix_finish(v0: Seq<u32>, ks: Seq<u32>, out: Seq<u32>)
    requires
        ks.to_multiset() == v0.map_values(|x: u32| crate::float_bits::sort_key(x)).to_multiset(),
        out.len() == ks.len(),
        forall|k: int| 0 <= k < ks.len() ==> out[k] == crate::float_bits::unsort_key(
            #[trigger] ks[k],
        ),
        masked_sorted(ks, 0xffff_ffff),
    ensures
        out.to_multiset() == v0.to_multiset(),
        crate::float_bits::sorted_sort_keys(out),
{
    let kf = |x: u32| crate::float_bits::sort_key(x);
    let gf = |x: u32| crate::float_bits::unsort_key(x);
    assert(out =~= ks.map_values(gf));
    assert(v0.map_values(kf).map_values(gf) =~= v0) by {
        assert forall|k: int| 0 <= k < v0.len() implies v0.map_values(kf).map_values(gf)[k]
            == v0[k] by {
            crate::float_bits::lemma_sort_key_roundtrip(v0[k]);
        }
    }
    lemma_map_multiset(ks, v0.map_values(kf), gf);
    assert(crate::float_bits::sorted_sort_keys(out)) by {
        assert forall|i: int, j: int| 0 <= i <= j < out.len() implies crate::float_bits::sort_key(
            #[trigger] out[i],
        ) <= crate::float_bits::sort_key(#[trigger] out[j]) by {
            lemma_sort_key_unsort_roundtrip(ks[i]);
            lemma_sort_key_unsort_roundtrip(ks[j]);
            let ki = ks[i];
            let kj = ks[j];
            assert(ki & 0xffff_ffffu32 == ki) by (bit_vector);
            assert(kj & 0xffff_ffffu32 == kj) by (bit_vector);
        }
    }
}

/// Binary-heap shape on the first `end` slots: each child at most its
/// parent, by comparison key.
pub open spec fn heap_shape(a: Seq<u32>, end: int) -> bool {
    forall|c: int| 1 <= c < end ==> cmp_key(#[trigger] a[c]) <= cmp_key(a[(c - 1) / 2])
}

/// Heap shape except for the links whose parent is slot `x`.
spec fn heap_shape_except(a: Seq<u32>, end: int, x: int) -> bool {
    forall|c: int|
        1 <= c < end && (c - 1) / 2 != x ==> cmp_key(#[trigger] a[c]) <= cmp_key(a[(c - 1) / 2])
}

/// What `sift_down` needs at slot `i`: heap shape everywhere except at
/// `i`'s own links, and `i`'s children already below `i`'s parent.
spec fn sift_down_pre(a: Seq<u32>, end: int, i: int) -> bool {
    &&& heap_shape_except(a, end, i)
    &&& (i > 0 ==> forall|c: int|
        1 <= c < end && (c - 1) / 2 == i ==> cmp_key(#[trigger] a[c]) <= cmp_key(a[(i - 1) / 2]))
}

/// In a heap no element exceeds the root.
proof fn lemma_heap_le_root(a: Seq<u32>, end: int, k: int)
    requires
        heap_shape(a, end),
        0 <= k < end,
    ensures
        cmp_key(a[k]) <= cmp_key(a[0]),
    decreases k,
{
    if k > 0 {
        lemma_heap_le_root(a, end, (k - 1) / 2);
    }
}

/// Sequences equal outside an interval with equal multisets have the
/// same multiset inside the interval too.
proof fn lemma_interval_multiset(x: Seq<u32>, y: Seq<u32>, lo: int, hi: int)
    requires
        x.len() == y.len(),
        0 <= lo <= hi <= x.len(),
        x.to_multiset() == y.to_multiset(),
        forall|k: int| 0 <= k < x.len() && !(lo <= k < hi) ==> x[k] == y[k],
    ensures
        x.subrange(lo, hi).to_multiset() == y.subrange(lo, hi).to_multiset(),
{
    broadcast use vstd::multiset::group_multiset_axioms;

    assert(x =~= x.take(lo) + x.subrange(lo, hi) + x.skip(hi));
    assert(y =~= y.take(lo) + y.subrange(lo, hi) + y.skip(hi));
    assert(x.take(lo) =~= y.take(lo));
    assert(x.skip(hi) =~= y.skip(hi));
    vstd::seq_lib::lemma_multiset_commutative(x.take(lo) + x.subrange(lo, hi), x.skip(hi));
    vstd::seq_lib::lemma_multiset_commutative(x.take(lo), x.subrange(lo, hi));
    vstd::seq_lib::lemma_multiset_commutative(y.take(lo) + y.subrange(lo, hi), y.skip(hi));
    vstd::seq_lib::lemma_multiset_commutative(y.take(lo), y.subrange(lo, hi));
    assert forall|e: u32|
        x.subrange(lo, hi).to_multiset().count(e) == y.subrange(lo, hi).to_multiset().count(
        e,
    ) by {
        assert(x.to_multiset().count(e) == x.take(lo).to_multiset().count(e) + x.subrange(
            lo,
            hi,
        ).to_multiset().count(e) + x.skip(hi).to_multiset().count(e));
        assert(y.to_multiset().count(e) == y.take(lo).to_multiset().count(e) + y.subrange(
            lo,
            hi,
        ).to_multiset().count(e) + y.skip(hi).to_multiset().count(e));
    }
    assert(x.subrange(lo, hi).to_multiset() =~= y.subrange(lo, hi).to_multiset());
}

/// Restore the heap shape from slot `i` downward by walking the larger
/// child below.
#[verifier::rlimit(100)]
fn sift_down(a: &mut Vec<u32>, i: usize, end: usize)
    requires
        i < end,
        end <= old(a)@.len(),
    ensures
        final(a)@.len() == old(a)@.len(),
        final(a)@.to_multiset() == old(a)@.to_multiset(),
        forall|k: int| 0 <= k < old(a)@.len() && !(i <= k < end) ==> final(a)@[k] == old(a)@[k],
        nan_free(old(a)@) && sift_down_pre(old(a)@, end as int, i as int) ==> heap_shape(
            final(a)@,
            end as int,
        ),
    decreases end - i,
{
    let ghost a0 = a@;
    let half = end / 2;
    if i >= half {
        proof {
            if nan_free(a0) && sift_down_pre(a0, end as int, i as int) {
                assert forall|c: int|
                    1 <= c < end implies cmp_key(#[trigger] a@[c]) <= cmp_key(
                    a@[(c - 1) / 2],
                ) by {
                    assert((c - 1) / 2 != i);
                }
            }
        }
        return ;
    }
    let l = 2 * i + 1;
    let mut largest = i;
    if gt_exec(a[l], a[i]) {
        largest = l;
    }
    let r = l + 1;
    if r < end && gt_exec(a[r], a[largest]) {
        largest = r;
    }
    if largest != i {
        let vi = a[i];
        let vbig = a[largest];
        a[i] = vbig;
        a[largest] = vi;
        proof {
            assert(a@ =~= a0.update(i as int, vbig).update(largest as int, vi));
            lemma_swap_multiset(a0, i as int, largest as int);
            if nan_free(a0) {
                assert(nan_free(a@)) by {
                    assert forall|k: int| 0 <= k < a@.len() implies !is_nan_bits(
                        #[trigger] a@[k],
                    ) by {
                        assert(a@[k] == a0[k] || a@[k] == a0[i as int] || a@[k] == a0[
                            largest as int]);
                    }
                }
            }
            if nan_free(a0) && sift_down_pre(a0, end as int, i as int) {
                assert(sift_down_pre(a@, end as int, largest as int)) by {
                    assert forall|c: int|
                        1 <= c < end && (c - 1) / 2 != largest implies cmp_key(#[trigger] a@[c])
                        <= cmp_key(a@[(c - 1) / 2]) by {
                        let p = (c - 1) / 2;
                        if c == i as int {
                            assert(cmp_key(a0[i as int]) <= cmp_key(a0[p]));
                            assert(cmp_key(a0[largest as int]) <= cmp_key(a0[p]));
                        } else if p == i as int {
                            assert(c == l as int || c == r as int);
                        } else if c == largest as int {
                            assert(false);
                        } else {
                            assert(a@[c] == a0[c] && a@[p] == a0[p]);
                        }
                    }
                }
            }
        }
        let ghost amid = a@;
        sift_down(a, largest, end);
        proof {
            assert(a@.to_multiset() =~= a0.to_multiset());
            if nan_free(a0) && sift_down_pre(a0, end as int, i as int) {
                assert(heap_shape(a@, end as int));
            }
        }
    } else {
        proof {
            if nan_free(a0) && sift_down_pre(a0, end as int, i as int) {
                assert forall|c: int|
                    1 <= c < end implies cmp_key(#[trigger] a@[c]) <= cmp_key(
                    a@[(c - 1) / 2],
                ) by {}
            }
        }
    }
}

/// One extraction round: after swapping the heap's root behind the
/// shrinking prefix and restoring the shape, the suffix stays sorted and
/// still dominates the prefix.
proof fn lemma_extract_step(b0: Seq<u32>, amid: Seq<u32>, afin: Seq<u32>, end: int)
    requires
        amid.len() == b0.len(),
        afin.len() == b0.len(),
        1 < end <= b0.len(),
        heap_shape(b0, end),
        sorted_cmp_keys(b0.skip(end)),
        forall|p: int, q: int|
            0 <= p < end <= q < b0.len() ==> cmp_key(#[trigger] b0[p]) <= cmp_key(
                #[trigger] b0[q],
            ),
        amid == b0.update(0, b0[end - 1]).update(end - 1, b0[0]),
        afin.to_multiset() == amid.to_multiset(),
        forall|k: int| end - 1 <= k < b0.len() ==> afin[k] == amid[k],
    ensures
        sorted_cmp_keys(afin.skip(end - 1)),
        forall|p: int, q: int|
            0 <= p < end - 1 <= q < b0.len() ==> cmp_key(#[trigger] afin[p]) <= cmp_key(
                #[trigger] afin[q],
            ),
{
    let n = b0.len() as int;
    let last = end - 1;
    assert forall|k: int| 0 <= k < end implies cmp_key(#[trigger] b0[k]) <= cmp_key(b0[0]) by {
        lemma_heap_le_root(b0, end, k);
    }
    lemma_interval_multiset(amid, afin, 0, last);
    lemma_multiset_elems(amid.subrange(0, last), afin.subrange(0, last));
    assert forall|k: int| 0 <= k < last implies cmp_key(#[trigger] afin[k]) <= cmp_key(
        afin[last],
    ) by {
        assert(afin.subrange(0, last)[k] == afin[k]);
        assert(amid.subrange(0, last).contains(afin[k]));
        let w = choose|w: int| 0 <= w < last && amid.subrange(0, last)[w] == afin[k];
        assert(amid[w] == b0[w] || amid[w] == b0[0] || amid[w] == b0[last]);
        assert(cmp_key(amid[w]) <= cmp_key(b0[0]));
        assert(afin[last] == b0[0]);
    }
    assert forall|x: int, y: int|
        0 <= x <= y < n - last implies cmp_key(#[trigger] afin.skip(last)[x]) <= cmp_key(
        #[trigger] afin.skip(last)[y],
    ) by {
        if x == 0 && y > 0 {
            assert(afin.skip(last)[0] == b0[0]);
            assert(afin.skip(last)[y] == b0[last + y]);
            assert(cmp_key(b0[0]) <= cmp_key(b0[last + y]));
        } else if x > 0 {
            assert(afin.skip(last)[x] == b0[last + x]);
            assert(afin.skip(last)[y] == b0[last + y]);
            assert(b0.skip(end)[x - 1] == b0[last + x]);
            assert(b0.skip(end)[y - 1] == b0[last + y]);
        }
    }
    assert forall|p: int, q: int|
        0 <= p < last <= q < n implies cmp_key(#[trigger] afin[p]) <= cmp_key(
        #[trigger] afin[q],
    ) by {
        assert(cmp_key(afin[p]) <= cmp_key(afin[last]));
        if q > last {
            assert(afin[q] == b0[q]);
            assert(cmp_key(b0[0]) <= cmp_key(b0[q]));
            assert(afin[last] == b0[0]);
        }
    }
}

/// Heap-sort: build a binary heap by sifting each element up, then
/// repeatedly move the root behind the shrinking heap and restore the
/// shape. Worst-case O(n log n) regardless of input.
#[verifier::rlimit(100)]
pub fn heapsort(v: Vec<u32>) -> (out: Vec<u32>)
    ensures
        out@.len() == v@.len(),
        out@.to_multiset() == v@.to_multiset(),
        nan_free(v@) ==> sorted_cmp_keys(out@),
{
    let ghost v0 = v@;
    let n = v.len();
    if n <= 1 {
        return v;
    }
    let mut a = v;
    let mut i: usize = 1;
    while i < n
        invariant
            1 <= i <= n,
            n == a@.len(),
            a@.to_multiset() == v0.to_multiset(),
            nan_free(v0) ==> nan_free(a@),
            nan_free(v0) ==> heap_shape(a@, i as int),
        decreases n - i,
    {
        let mut j: usize = i;
        while j > 0 && gt_exec(a[j], a[(j - 1) / 2])
            invariant
                j <= i,
                i < n,
                n == a@.len(),
                a@.to_multiset() == v0.to_multiset(),
                nan_free(v0) ==> nan_free(a@),
                nan_free(v0) ==> heap_shape_except_child(a@, i as int + 1, j as int),
                nan_free(v0) ==> (j > 0 ==> forall|c: int|
                    1 <= c < i + 1 && (c - 1) / 2 == j ==> cmp_key(#[trigger] a@[c]) <= cmp_key(
                        a@[(j as int - 1) / 2],
                    )),
            decreases j,
        {
            let p = (j - 1) / 2;
            let ghost b0 = a@;
            let vj = a[j];
            let vp = a[p];
            a[j] = vp;
            a[p] = vj;
            proof {
                assert(a@ =~= b0.update(p as int, vj).update(j as int, vp));
                lemma_swap_multiset(b0, p as int, j as int);
                if nan_free(v0) {
                    assert(nan_free(a@)) by {
                        assert forall|k: int| 0 <= k < a@.len() implies !is_nan_bits(
                            #[trigger] a@[k],
                        ) by {
                            assert(a@[k] == b0[k] || a@[k] == b0[j as int] || a@[k] == b0[
                                p as int]);
                        }
                    }
                    assert(heap_shape_except_child(a@, i as int + 1, p as int)) by {
                        assert forall|c: int|
                            1 <= c < i + 1 && c != p implies cmp_key(#[trigger] a@[c])
                            <= cmp_key(a@[(c - 1) / 2]) by {
                            let q = (c - 1) / 2;
                            if c == j as int {
                            } else if q == j as int {
                                assert(cmp_key(b0[c]) <= cmp_key(b0[(j as int - 1) / 2]));
                            } else if q == p as int {
                                assert(cmp_key(b0[c]) <= cmp_key(b0[p as int]));
                            } else {
                                assert(a@[c] == b0[c] && a@[q] == b0[q]);
                            }
                        }
                    }
                    if p > 0 {
                        assert forall|c: int|
                            1 <= c < i + 1 && (c - 1) / 2 == p implies cmp_key(#[trigger] a@[c])
                            <= cmp_key(a@[(p as int - 1) / 2]) by {
                            assert(cmp_key(b0[p as int]) <= cmp_key(b0[(p as int - 1) / 2]));
                            if c == j as int {
                            } else {
                                assert(cmp_key(b0[c]) <= cmp_key(b0[p as int]));
                            }
                        }
                    }
                }
            }
            j = p;
        }
        proof {
            if nan_free(v0) {
                assert(heap_shape(a@, i as int + 1)) by {
                    assert forall|c: int|
                        1 <= c < i + 1 implies cmp_key(#[trigger] a@[c]) <= cmp_key(
                        a@[(c - 1) / 2],
                    ) by {}
                }
            }
        }
        i += 1;
    }
    let mut end: usize = n;
    while end > 1
        invariant
            1 <= end <= n,
            n == a@.len(),
            a@.to_multiset() == v0.to_multiset(),
            nan_free(v0) ==> nan_free(a@),
            nan_free(v0) ==> heap_shape(a@, end as int),
            nan_free(v0) ==> sorted_cmp_keys(a@.skip(end as int)),
            nan_free(v0) ==> forall|p: int, q: int|
                0 <= p < end <= q < n ==> cmp_key(#[trigger] a@[p]) <= cmp_key(#[trigger] a@[q]),
        decreases end,
    {
        let last = end - 1;
        let ghost b0 = a@;
        let root = a[0];
        let vlast = a[last];
        a[0] = vlast;
        a[last] = root;
        proof {
            if last > 0 {
                assert(a@ =~= b0.update(0, vlast).update(last as int, root));
                lemma_swap_multiset(b0, 0, last as int);
            } else {
                assert(a@ =~= b0);
            }
            if nan_free(v0) {
                assert(nan_free(a@)) by {
                    assert forall|k: int| 0 <= k < a@.len() implies !is_nan_bits(
                        #[trigger] a@[k],
                    ) by {
                        assert(a@[k] == b0[k] || a@[k] == b0[0] || a@[k] == b0[last as int]);
                    }
                }
                assert forall|k: int| 0 <= k < end implies cmp_key(#[trigger] b0[k]) <= cmp_key(
                    b0[0],
                ) by {
                    lemma_heap_le_root(b0, end as int, k);
                }
                if last > 0 {
                    assert(sift_down_pre(a@, last as int, 0)) by {
                        assert forall|c: int|
                            1 <= c < last && (c - 1) / 2 != 0 implies cmp_key(#[trigger] a@[c])
                            <= cmp_key(a@[(c - 1) / 2]) by {
                            assert(a@[c] == b0[c] && a@[(c - 1) / 2] == b0[(c - 1) / 2]);
                        }
                    }
                }
            }
        }
        let ghost amid = a@;
        if last > 0 {
            sift_down(&mut a, 0, last);
        }
        proof {
            assert(a@.to_multiset() =~= v0.to_multiset());
            if nan_free(v0) {
                lemma_nan_free_multiset(amid, a@);
                lemma_extract_step(b0, amid, a@, end as int);
            }
        }
        end = last;
    }
    proof {
        if nan_free(v0) {
            assert(sorted_cmp_keys(a@)) by {
                assert forall|x: int, y: int|
                    0 <= x <= y < n implies cmp_key(#[trigger] a@[x]) <= cmp_key(
                    #[trigger] a@[y],
                ) by {
                    if x == 0 && y > 0 {
                        assert(cmp_key(a@[0]) <= cmp_key(a@[y]));
                    } else if x > 0 {
                        assert(a@.skip(1)[x - 1] == a@[x]);
                        assert(a@.skip(1)[y - 1] == a@[y]);
                    }
                }
            }
        }
    }
    a
}

/// Heap shape except for the single link from child slot `j` upward.
spec fn heap_shape_except_child(a: Seq<u32>, end: int, j: int) -> bool {
    forall|c: int|
        1 <= c < end && c != j ==> cmp_key(#[trigger] a[c]) <= cmp_key(a[(c - 1) / 2])
}

/// Bucket-prefix length grows with the byte bound.
proof fn lemma_prefix_len_mono(s: Seq<u32>, shift: u32, b1: int, b2: int)
    requires
        0 <= b1 <= b2,
    ensures
        buckets_prefix(s, shift, b1).len() <= buckets_prefix(s, shift, b2).len(),
    decreases b2,
{
    if b1 < b2 {
        lemma_prefix_len_mono(s, shift, b1, b2 - 1);
    }
}

/// All 256 buckets together hold exactly the input's elements.
proof fn lemma_prefix_total_len(s: Seq<u32>, shift: u32)
    ensures
        buckets_prefix(s, shift, 256).len() == s.len(),
{
    lemma_prefix_multiset(s, shift, 256);
    lemma_below_all(s, shift);
    vstd::seq_lib::to_multiset_len(buckets_prefix(s, shift, 256));
    vstd::seq_lib::to_multiset_len(s);
}

/// A bucket of a prefix never outgrows the bucket of the whole input.
proof fn lemma_bucket_take_le(s: Seq<u32>, i: int, shift: u32, b: u32)
    requires
        0 <= i <= s.len(),
    ensures
        bucket_of(s.take(i), shift, b).len() <= bucket_of(s, shift, b).len(),
{
    let pred = |e: u32| byte_at(e, shift) == b;
    assert(s =~= s.take(i) + s.skip(i));
    Seq::<u32>::filter_distributes_over_add(s.take(i), s.skip(i), pred);
}

/// Once every bucket's span of the output holds that bucket, the output
/// prefix up to any byte bound is the bucket concatenation.
#[verifier::rlimit(50)]
proof fn lemma_assemble(out: Seq<u32>, s: Seq<u32>, shift: u32, b: int)
    requires
        0 <= b <= 256,
        buckets_prefix(s, shift, 256).len() <= out.len(),
        forall|k: int|
            0 <= k < 256 ==> out.subrange(
                #[trigger] buckets_prefix(s, shift, k).len() as int,
                buckets_prefix(s, shift, k + 1).len() as int,
            ) == bucket_of(s, shift, k as u32),
    ensures
        out.take(buckets_prefix(s, shift, b).len() as int) == buckets_prefix(s, shift, b),
    decreases b,
{
    if b > 0 {
        lemma_assemble(out, s, shift, b - 1);
        lemma_prefix_len_mono(s, shift, b - 1, b);
        lemma_prefix_len_mono(s, shift, b, 256);
        let lo = buckets_prefix(s, shift, b - 1).len() as int;
        let hi = buckets_prefix(s, shift, b).len() as int;
        assert(out.subrange(lo, hi) == bucket_of(s, shift, (b - 1) as u32));
        assert(out.take(hi) =~= out.take(lo) + out.subrange(lo, hi));
        assert(out.take(hi) =~= buckets_prefix(s, shift, b));
    }
}

/// One stable counting pass over the examined byte: count each byte's
/// occurrences, turn the counts into exclusive prefix sums (each
/// bucket's start offset), then scatter the elements in one forward
/// scan at their bucket's running offset into the caller's auxiliary
/// buffer. The forward scan makes the pass stable: inside a bucket the
/// input order is kept.
#[verifier::rlimit(100)]
fn counting_pass(s: &Vec<u32>, scratch: Vec<u32>, shift: u32) -> (out: Vec<u32>)
    requires
        scratch@.len() == s@.len(),
        shift == 0 || shift == 8 || shift == 16 || shift == 24,
    ensures
        out@ == buckets_prefix(s@, shift, 256),
{
    let n = s.len();

    let mut counts: Vec<usize> = Vec::new();
    let mut c: usize = 0;
    while c < 256
        invariant
            c <= 256,
            counts@.len() == c,
            forall|b: int| 0 <= b < c ==> counts@[b] == 0,
        decreases 256 - c,
    {
        counts.push(0);
        c += 1;
    }
    proof {
        assert forall|b: int| 0 <= b < 256 implies counts@[b] == bucket_of(
            s@.take(0),
            shift,
            b as u32,
        ).len() by {
            s@.take(0).lemma_filter_len(|e: u32| byte_at(e, shift) == b as u32);
        }
    }
    let mut i: usize = 0;
    while i < n
        invariant
            i <= n,
            n == s@.len(),
            counts@.len() == 256,
            shift == 0 || shift == 8 || shift == 16 || shift == 24,
            forall|b: int|
                0 <= b < 256 ==> counts@[b] == bucket_of(s@.take(i as int), shift, b as u32).len(),
        decreases n - i,
    {
        let x = s[i];
        let bb = ((x >> shift) & 0xff) as usize;
        proof {
            lemma_byte_bound(x, shift);
            assert(bb as u32 == byte_at(x, shift));
            assert(s@.take(i as int).push(x) =~= s@.take(i as int + 1));
            assert forall|b: int|
                0 <= b < 256 implies #[trigger] bucket_of(s@.take(i as int + 1), shift, b as u32)
                == (if byte_at(x, shift) == b as u32 {
                bucket_of(s@.take(i as int), shift, b as u32).push(x)
            } else {
                bucket_of(s@.take(i as int), shift, b as u32)
            }) by {
                lemma_bucket_push(s@.take(i as int), x, shift, b as u32);
            }
            s@.take(i as int).lemma_filter_len(|e: u32| byte_at(e, shift) == bb as u32);
        }
        let cur = counts[bb];
        counts[bb] = cur + 1;
        i += 1;
    }
    proof {
        assert(s@.take(n as int) =~= s@);
        lemma_prefix_total_len(s@, shift);
    }

    let mut pos: Vec<usize> = Vec::new();
    let mut acc: usize = 0;
    let mut b2: usize = 0;
    while b2 < 256
        invariant
            b2 <= 256,
            pos@.len() == b2,
            counts@.len() == 256,
            n == s@.len(),
            buckets_prefix(s@, shift, 256).len() == n,
            forall|b: int| 0 <= b < 256 ==> counts@[b] == bucket_of(s@, shift, b as u32).len(),
            acc == buckets_prefix(s@, shift, b2 as int).len(),
            forall|k: int| 0 <= k < b2 ==> pos@[k] == buckets_prefix(s@, shift, k).len(),
        decreases 256 - b2,
    {
        pos.push(acc);
        proof {
            lemma_prefix_len_mono(s@, shift, b2 as int + 1, 256);
            assert(buckets_prefix(s@, shift, b2 as int + 1).len() == acc + counts@[b2 as int]);
        }
        acc = acc + counts[b2];
        b2 += 1;
    }

    let mut out = scratch;

    proof {
        assert forall|b: int|
            0 <= b < 256 implies #[trigger] bucket_of(s@.take(0), shift, b as u32)
            =~= Seq::<u32>::empty() by {
            s@.take(0).lemma_filter_len(|e: u32| byte_at(e, shift) == b as u32);
        }
        assert forall|b: int|
            0 <= b < 256 implies out@.subrange(
            buckets_prefix(s@, shift, b).len() as int,
            pos@[b] as int,
        ) == bucket_of(s@.take(0), shift, b as u32) by {
            lemma_prefix_len_mono(s@, shift, b, 256);
            assert(pos@[b] == buckets_prefix(s@, shift, b).len());
        }
    }
    let mut i2: usize = 0;
    while i2 < n
        invariant
            i2 <= n,
            n == s@.len(),
            out@.len() == n,
            pos@.len() == 256,
            shift == 0 || shift == 8 || shift == 16 || shift == 24,
            buckets_prefix(s@, shift, 256).len() == n,
            forall|b: int|
                0 <= b < 256 ==> pos@[b] == buckets_prefix(s@, shift, b).len() + bucket_of(
                    s@.take(i2 as int),
                    shift,
                    b as u32,
                ).len(),
            forall|b: int|
                0 <= b < 256 ==> out@.subrange(
                    buckets_prefix(s@, shift, b).len() as int,
                    pos@[b] as int,
                ) == bucket_of(s@.take(i2 as int), shift, b as u32),
        decreases n - i2,
    {
        let x = s[i2];
        let bb = ((x >> shift) & 0xff) as usize;
        proof {
            lemma_byte_bound(x, shift);
            assert(bb as u32 == byte_at(x, shift));
            assert(s@.take(i2 as int).push(x) =~= s@.take(i2 as int + 1));
            assert forall|b: int|
                0 <= b < 256 implies #[trigger] bucket_of(s@.take(i2 as int + 1), shift, b as u32)
                == (if byte_at(x, shift) == b as u32 {
                bucket_of(s@.take(i2 as int), shift, b as u32).push(x)
            } else {
                bucket_of(s@.take(i2 as int), shift, b as u32)
            }) by {
                lemma_bucket_push(s@.take(i2 as int), x, shift, b as u32);
            }
            lemma_bucket_take_le(s@, i2 as int + 1, shift, bb as u32);
            lemma_prefix_len_mono(s@, shift, bb as int + 1, 256);
            assert(pos@[bb as int] < buckets_prefix(s@, shift, bb as int + 1).len());
        }
        let p = pos[bb];
        let ghost out0 = out@;
        let ghost pos0 = pos@;
        out[p] = x;
        pos[bb] = p + 1;
        proof {
            assert(out@ =~= out0.update(p as int, x));
            assert(pos@ =~= pos0.update(bb as int, (p + 1) as usize));
            assert forall|b: int|
                0 <= b < 256 implies out@.subrange(
                buckets_prefix(s@, shift, b).len() as int,
                pos@[b] as int,
            ) == bucket_of(s@.take(i2 as int + 1), shift, b as u32) by {
                let lo = buckets_prefix(s@, shift, b).len() as int;
                if b == bb {
                    assert(out@.subrange(lo, p as int + 1) =~= out0.subrange(lo, p as int).push(
                        x,
                    ));
                } else {
                    lemma_bucket_take_le(s@, i2 as int, shift, b as u32);
                    lemma_prefix_len_mono(s@, shift, b + 1, 256);
                    assert(pos0[b] <= buckets_prefix(s@, shift, b + 1).len());
                    assert(pos0[b] <= n);
                    if b < bb {
                        lemma_prefix_len_mono(s@, shift, b + 1, bb as int);
                        assert(pos0[b] <= p);
                    } else {
                        lemma_prefix_len_mono(s@, shift, bb as int + 1, b);
                        assert(p + 1 <= buckets_prefix(s@, shift, b).len());
                    }
                    assert(out@.subrange(lo, pos@[b] as int) =~= out0.subrange(
                        lo,
                        pos0[b] as int,
                    ));
                }
            }
        }
        i2 += 1;
    }
    proof {
        assert(s@.take(n as int) =~= s@);
        assert forall|k: int|
            0 <= k < 256 implies out@.subrange(
            #[trigger] buckets_prefix(s@, shift, k).len() as int,
            buckets_prefix(s@, shift, k + 1).len() as int,
        ) == bucket_of(s@, shift, k as u32) by {
            lemma_prefix_len_mono(s@, shift, k + 1, 256);
            assert(pos@[k] == buckets_prefix(s@, shift, k).len() + bucket_of(
                s@,
                shift,
                k as u32,
            ).len());
            assert(pos@[k] == buckets_prefix(s@, shift, k + 1).len());
        }
        lemma_assemble(out@, s@, shift, 256);
        assert(out@.take(buckets_prefix(s@, shift, 256).len() as int) =~= out@);
    }
    out
}

/// Apply the order-preserving transform to every element.
fn apply_sort_key(v: Vec<u32>) -> (r: Vec<u32>)
    ensures
        r@.len() == v@.len(),
        forall|k: int| 0 <= k < v@.len() ==> r@[k] == crate::float_bits::sort_key(#[trigger] v@[k]),
{
    let mut r: Vec<u32> = Vec::new();
    let mut i: usize = 0;
    while i < v.len()
        invariant
            i <= v@.len(),
            r@.len() == i,
            forall|k: int| 0 <= k < i ==> r@[k] == crate::float_bits::sort_key(#[trigger] v@[k]),
        decreases v@.len() - i,
    {
        r.push(crate::float_bits::sort_key_exec(v[i]));
        i += 1;
    }
    r
}

/// Undo the order-preserving transform on every element.
fn apply_unsort_key(v: Vec<u32>) -> (r: Vec<u32>)
    ensures
        r@.len() == v@.len(),
        forall|k: int| 0 <= k < v@.len() ==> r@[k] == crate::float_bits::unsort_key(
            #[trigger] v@[k],
        ),
{
    let mut r: Vec<u32> = Vec::new();
    let mut i: usize = 0;
    while i < v.len()
        invariant
            i <= v@.len(),
            r@.len() == i,
            forall|k: int| 0 <= k < i ==> r@[k] == crate::float_bits::unsort_key(#[trigger] v@[k]),
        decreases v@.len() - i,
    {
        r.push(crate::float_bits::unsort_key_exec(v[i]));
        i += 1;
    }
    r
}

/// Least-significant-digit radix sort of float bit patterns, 8 bits per
/// pass. Every element is first mapped through the order-preserving
/// transform, the four stable byte passes sort the transformed keys in
/// unsigned order, and the transform is undone. The result is therefore
/// always sorted by `sort_key` — the IEEE-754 total order, which places
/// -0.0 before +0.0 and NaN patterns at the extremes by their bits.
pub fn radix_sort_f32(v: &mut Vec<u32>)
    ensures
        final(v)@.len() == old(v)@.len(),
        final(v)@.to_multiset() == old(v)@.to_multiset(),
        crate::float_bits::sorted_sort_keys(final(v)@),
{
    let ghost v0 = v@;
    if v.len() <= 1 {
        return ;
    }
    let work = copy_bits(v);
    let keys = apply_sort_key(work);
    proof {
        assert(keys@ =~= v0.map_values(|x: u32| crate::float_bits::sort_key(x)));
        lemma_masked_zero(keys@);
    }
    // The one auxiliary buffer; each pass reads one buffer and fills the
    // other, so it is reused across all four passes.
    let n = v.len();
    let mut aux: Vec<u32> = Vec::new();
    let mut z: usize = 0;
    while z < n
        invariant
            z <= n,
            aux@.len() == z,
        decreases n - z,
    {
        aux.push(0);
        z += 1;
    }
    let k1 = counting_pass(&keys, aux, 0);
    proof {
        lemma_pass_props(keys@, k1@, 0, 0, 0xff);
    }
    let k2 = counting_pass(&k1, keys, 8);
    proof {
        lemma_pass_props(k1@, k2@, 8, 0xff, 0xffff);
    }
    let k3 = counting_pass(&k2, k1, 16);
    proof {
        lemma_pass_props(k2@, k3@, 16, 0xffff, 0xff_ffff);
    }
    let k4 = counting_pass(&k3, k2, 24);
    proof {
        lemma_pass_props(k3@, k4@, 24, 0xff_ffff, 0xffff_ffff);
    }
    let ghost k4view = k4@;
    let out = apply_unsort_key(k4);
    proof {
        lemma_radix_finish(v0, k4view, out@);
    }
    *v = out;
}

/// Re-applying the transform after undoing it gives the key back.
proof fn lemma_sort_key_unsort_roundtrip(k: u32)
    ensures
        crate::float_bits::sort_key(crate::float_bits::unsort_key(k)) == k,
{
    assert(crate::float_bits::sort_key(crate::float_bits::unsort_key(k)) == k) by (bit_vector);
}

/// Comparison-based sort of the whole array: a stable merge sort when
/// stability is preferred, the depth-bounded quicksort otherwise. Both
/// tolerate NaN (the comparator treats incomparable pairs as equal) and
/// both fully sort NaN-free input; the stable mode additionally keeps
/// every equal-key run in its input order, which pins its output bit
/// for bit.
pub fn comparison_sort(v: &mut Vec<u32>, prefer_stable: bool)
    ensures
        final(v)@.len() == old(v)@.len(),
        final(v)@.to_multiset() == old(v)@.to_multiset(),
        nan_free(old(v)@) ==> sorted_cmp_keys(final(v)@),
        prefer_stable ==> adjacent_le(final(v)@),
        prefer_stable && nan_free(old(v)@) ==> same_key_order(old(v)@, final(v)@),
{
    let work = copy_bits(v);
    let sorted = if prefer_stable {
        merge_sort_bits(work)
    } else {
        introsort(work)
    };
    *v = sorted;
}

} // verus!
