//! The backends behind the ordered-type entry point: a stable merge sort
//! and a depth-budgeted quicksort. The radix backend is never used here —
//! there is no universal order-preserving unsigned mapping for arbitrary
//! ordered data, only for fixed-width floats.

use vstd::prelude::*;
use vstd::multiset::Multiset;

verus! {

/// Plain element-for-element copy.
pub(crate) fn copy_i32(v: &Vec<i32>) -> (c: Vec<i32>)
    ensures
        c@ == v@,
{
    let mut c: Vec<i32> = Vec::new();
    let mut i: usize = 0;
    while i < v.len()
        invariant
            i <= v@.len(),
            c@ =~= v@.take(i as int),
        decreases v@.len() - i,
    {
        c.push(v[i]);
        i += 1;
    }
    proof {
        assert(v@.take(v@.len() as int) =~= v@);
    }
    c
}

/// Non-decreasing under the integer order.
pub open spec fn sorted_i32(s: Seq<i32>) -> bool {
    forall|i: int, j: int| 0 <= i <= j < s.len() ==> #[trigger] s[i] <= #[trigger] s[j]
}

/// Two sequences with the same multiset draw on the same elements.
pub proof fn lemma_multiset_elems_i32(a: Seq<i32>, b: Seq<i32>)
    requires
        a.to_multiset() == b.to_multiset(),
    ensures
        forall|i: int| 0 <= i < b.len() ==> a.contains(#[trigger] b[i]),
{
    broadcast use vstd::seq_lib::group_to_multiset_ensures;

    assert forall|i: int| 0 <= i < b.len() implies a.contains(#[trigger] b[i]) by {
        assert(b.contains(b[i]));
        assert(b.to_multiset().count(b[i]) > 0);
    }
}

/// Pushing an element onto a merge output tracks pushing it onto either
/// input prefix, at the multiset level.
proof fn lemma_push_concat_multiset_i32(r: Seq<i32>, s: Seq<i32>, t: Seq<i32>, x: i32)
    requires
        r.to_multiset() == (s + t).to_multiset(),
    ensures
        r.push(x).to_multiset() == (s.push(x) + t).to_multiset(),
        r.push(x).to_multiset() == (s + t.push(x)).to_multiset(),
{
    broadcast use vstd::seq_lib::group_to_multiset_ensures;
    broadcast use vstd::seq_lib::lemma_multiset_commutative;
    broadcast use vstd::multiset::group_multiset_axioms;

    assert(r.push(x).to_multiset() =~= r.to_multiset().insert(x));
    assert((s.push(x) + t).to_multiset() =~= s.to_multiset().insert(x).add(t.to_multiset()));
    assert((s + t.push(x)).to_multiset() =~= s.to_multiset().add(t.to_multiset().insert(x)));
    assert(r.push(x).to_multiset() =~= (s.push(x) + t).to_multiset());
    assert(r.push(x).to_multiset() =~= (s + t.push(x)).to_multiset());
}

/// Merge two sorted runs, taking from the left on ties (stable).
fn merge_i32(a: &Vec<i32>, b: &Vec<i32>) -> (r: Vec<i32>)
    requires
        sorted_i32(a@),
        sorted_i32(b@),
    ensures
        r@.len() == a@.len() + b@.len(),
        r@.to_multiset() == (a@ + b@).to_multiset(),
        sorted_i32(r@),
{
    broadcast use vstd::seq_lib::group_to_multiset_ensures;
    broadcast use vstd::seq_lib::lemma_multiset_commutative;
    broadcast use vstd::multiset::group_multiset_axioms;

    let mut r: Vec<i32> = Vec::new();
    let mut i: usize = 0;
    let mut j: usize = 0;
    while i < a.len() && j < b.len()
        invariant
            i <= a@.len(),
            j <= b@.len(),
            sorted_i32(a@),
            sorted_i32(b@),
            r@.len() == i + j,
            r@.to_multiset() == (a@.take(i as int) + b@.take(j as int)).to_multiset(),
            sorted_i32(r@),
            forall|k: int|
                0 <= k < r@.len() && i < a@.len() ==> #[trigger] r@[k] <= a@[i as int],
            forall|k: int|
                0 <= k < r@.len() && j < b@.len() ==> #[trigger] r@[k] <= b@[j as int],
        decreases a@.len() + b@.len() - i - j,
    {
        let x = a[i];
        let y = b[j];
        if x <= y {
            proof {
                lemma_push_concat_multiset_i32(r@, a@.take(i as int), b@.take(j as int), x);
                assert(a@.take(i as int).push(x) =~= a@.take(i as int + 1));
            }
            r.push(x);
            i += 1;
        } else {
            proof {
                lemma_push_concat_multiset_i32(r@, a@.take(i as int), b@.take(j as int), y);
                assert(b@.take(j as int).push(y) =~= b@.take(j as int + 1));
            }
            r.push(y);
            j += 1;
        }
    }
    while i < a.len()
        invariant
            i <= a@.len(),
            j <= b@.len(),
            i < a@.len() ==> j == b@.len(),
            sorted_i32(a@),
            sorted_i32(b@),
            r@.len() == i + j,
            r@.to_multiset() == (a@.take(i as int) + b@.take(j as int)).to_multiset(),
            sorted_i32(r@),
            forall|k: int|
                0 <= k < r@.len() && i < a@.len() ==> #[trigger] r@[k] <= a@[i as int],
            forall|k: int|
                0 <= k < r@.len() && j < b@.len() ==> #[trigger] r@[k] <= b@[j as int],
        decreases a@.len() - i,
    {
        let x = a[i];
        proof {
            lemma_push_concat_multiset_i32(r@, a@.take(i as int), b@.take(j as int), x);
            assert(a@.take(i as int).push(x) =~= a@.take(i as int + 1));
        }
        r.push(x);
        i += 1;
    }
    while j < b.len()
        invariant
            i == a@.len(),
            j <= b@.len(),
            sorted_i32(b@),
            r@.len() == i + j,
            r@.to_multiset() == (a@.take(i as int) + b@.take(j as int)).to_multiset(),
            sorted_i32(r@),
            forall|k: int|
                0 <= k < r@.len() && j < b@.len() ==> #[trigger] r@[k] <= b@[j as int],
        decreases b@.len() - j,
    {
        let y = b[j];
        proof {
            lemma_push_concat_multiset_i32(r@, a@.take(i as int), b@.take(j as int), y);
            assert(b@.take(j as int).push(y) =~= b@.take(j as int + 1));
        }
        r.push(y);
        j += 1;
    }
    proof {
        assert(a@.take(i as int) =~= a@);
        assert(b@.take(j as int) =~= b@);
    }
    r
}

/// Stable merge sort for ordered elements.
pub fn merge_sort_i32(v: Vec<i32>) -> (r: Vec<i32>)
    ensures
        r@.len() == v@.len(),
        r@.to_multiset() == v@.to_multiset(),
        sorted_i32(r@),
    decreases v@.len(),
{
    broadcast use vstd::seq_lib::lemma_multiset_commutative;
    broadcast use vstd::multiset::group_multiset_axioms;

    let ghost v0 = v@;
    let n = v.len();
    if n <= 1 {
        return v;
    }
    let mut left = v;
    let right = left.split_off(n / 2);
    proof {
        assert(left@ + right@ =~= v0);
    }
    let sorted_left = merge_sort_i32(left);
    let sorted_right = merge_sort_i32(right);
    let r = merge_i32(&sorted_left, &sorted_right);
    proof {
        assert(r@.to_multiset() =~= v0.to_multiset());
    }
    r
}

/// One quicksort step for ordered elements: median-of-three pivot, one
/// forward scan, never ambiguous since the order is total.
fn partition_i32(v: &Vec<i32>) -> (res: (Vec<i32>, i32, Vec<i32>))
    requires
        v@.len() >= 2,
    ensures
        ({
            let (l, p, r) = res;
            &&& l@.len() + r@.len() + 1 == v@.len()
            &&& (l@ + seq![p] + r@).to_multiset() == v@.to_multiset()
            &&& forall|k: int| 0 <= k < l@.len() ==> #[trigger] l@[k] <= p
            &&& forall|k: int| 0 <= k < r@.len() ==> #[trigger] r@[k] > p
        }),
{
    broadcast use vstd::seq_lib::group_to_multiset_ensures;
    broadcast use vstd::seq_lib::lemma_multiset_commutative;
    broadcast use vstd::multiset::group_multiset_axioms;

    let n = v.len();
    let mid = n / 2;
    let last = n - 1;
    let a0 = v[0];
    let am = v[mid];
    let al = v[last];
    let p_idx: usize = if (a0 <= am && am <= al) || (al <= am && am <= a0) {
        mid
    } else if (am <= a0 && a0 <= al) || (al <= a0 && a0 <= am) {
        0
    } else {
        last
    };
    let pivot = v[p_idx];

    let mut rest: Vec<i32> = Vec::new();
    let mut i: usize = 0;
    while i < n
        invariant
            i <= n,
            n == v@.len(),
            p_idx < n,
            i <= p_idx ==> rest@ =~= v@.take(i as int),
            i > p_idx ==> rest@ =~= v@.subrange(0, p_idx as int) + v@.subrange(
                p_idx as int + 1,
                i as int,
            ),
        decreases n - i,
    {
        if i != p_idx {
            proof {
                if i > p_idx {
                    assert(v@.subrange(p_idx as int + 1, i as int).push(v@[i as int]) =~= v@
                        .subrange(p_idx as int + 1, i as int + 1));
                } else {
                    assert(v@.take(i as int).push(v@[i as int]) =~= v@.take(i as int + 1));
                }
            }
            rest.push(v[i]);
        } else {
            proof {
                assert(v@.subrange(0, p_idx as int) =~= v@.take(p_idx as int));
                assert(v@.subrange(p_idx as int + 1, i as int + 1) =~= Seq::<i32>::empty());
                assert(rest@ =~= v@.subrange(0, p_idx as int) + v@.subrange(
                    p_idx as int + 1,
                    i as int + 1,
                ));
            }
        }
        i += 1;
    }
    proof {
        assert(rest@ =~= v@.remove(p_idx as int));
        vstd::seq_lib::to_multiset_remove(v@, p_idx as int);
    }

    let mut left: Vec<i32> = Vec::new();
    let mut right: Vec<i32> = Vec::new();
    let m = rest.len();
    let mut j: usize = 0;
    while j < m
        invariant
            j <= m,
            m == rest@.len(),
            left@.len() + right@.len() == j,
            left@.to_multiset().add(right@.to_multiset()) == rest@.take(j as int).to_multiset(),
            forall|k: int| 0 <= k < left@.len() ==> #[trigger] left@[k] <= pivot,
            forall|k: int| 0 <= k < right@.len() ==> #[trigger] right@[k] > pivot,
        decreases m - j,
    {
        let x = rest[j];
        proof {
            assert(rest@.take(j as int).push(x) =~= rest@.take(j as int + 1));
            vstd::seq_lib::to_multiset_build(rest@.take(j as int), x);
            vstd::seq_lib::to_multiset_build(left@, x);
            vstd::seq_lib::to_multiset_build(right@, x);
        }
        if x > pivot {
            right.push(x);
        } else {
            left.push(x);
        }
        j += 1;
    }
    proof {
        assert(rest@.take(m as int) =~= rest@);
        assert((left@ + seq![pivot] + right@).to_multiset() =~= v@.to_multiset()) by {
            assert(v@.contains(v@[p_idx as int]));
            vstd::seq_lib::to_multiset_contains(v@, pivot);
            assert(v@.to_multiset().count(pivot) > 0);
            vstd::seq_lib::to_multiset_build(Seq::<i32>::empty(), pivot);
            assert forall|x: i32| Seq::<i32>::empty().to_multiset().count(x) == 0 by {
                vstd::seq_lib::to_multiset_contains(Seq::<i32>::empty(), x);
            }
            assert(Seq::<i32>::empty().to_multiset() =~= Multiset::<i32>::empty());
            assert(v@.to_multiset().remove(pivot).insert(pivot) =~= v@.to_multiset());
            assert((left@ + seq![pivot]).to_multiset() =~= left@.to_multiset().add(
                seq![pivot].to_multiset(),
            ));
            assert((left@ + seq![pivot] + right@).to_multiset() =~= (left@
                + seq![pivot]).to_multiset().add(right@.to_multiset()));
            assert(seq![pivot] =~= Seq::<i32>::empty().push(pivot));
        }
    }
    (left, pivot, right)
}

/// Depth-budgeted quicksort for ordered elements; an exhausted budget
/// finishes with the worst-case-bounded full merge sort.
pub fn introsort_i32(v: Vec<i32>, limit: u32) -> (r: Vec<i32>)
    ensures
        r@.len() == v@.len(),
        r@.to_multiset() == v@.to_multiset(),
        sorted_i32(r@),
    decreases v@.len(),
{
    broadcast use vstd::seq_lib::group_to_multiset_ensures;
    broadcast use vstd::seq_lib::lemma_multiset_commutative;
    broadcast use vstd::multiset::group_multiset_axioms;

    let ghost v0 = v@;
    let n = v.len();
    if n <= 1 {
        return v;
    }
    if limit == 0 {
        return merge_sort_i32(v);
    }
    let (left, pivot, right) = partition_i32(&v);
    let ghost lseq = left@;
    let ghost rseq = right@;
    let ls = introsort_i32(left, limit - 1);
    let rs = introsort_i32(right, limit - 1);
    let mut out = ls;
    let ghost lbase = out@;
    out.push(pivot);
    let mut rtail = rs;
    let ghost rsorted = rtail@;
    out.append(&mut rtail);
    proof {
        assert(out@ =~= lbase + seq![pivot] + rsorted);
        lemma_multiset_elems_i32(lseq, lbase);
        lemma_multiset_elems_i32(rseq, rsorted);
        assert(out@.to_multiset() =~= v0.to_multiset()) by {
            assert((lbase + seq![pivot] + rsorted).to_multiset() =~= (lseq + seq![pivot]
                + rseq).to_multiset());
        }
        assert forall|a: int, b: int| 0 <= a <= b < out@.len() implies #[trigger] out@[a]
            <= #[trigger] out@[b] by {
            let ll = lbase.len() as int;
            if a < ll {
                let wa = choose|w: int| 0 <= w < lseq.len() && lseq[w] == lbase[a];
                assert(lseq[wa] <= pivot);
            }
            if b < ll {
                let wb = choose|w: int| 0 <= w < lseq.len() && lseq[w] == lbase[b];
                assert(lseq[wb] <= pivot);
            }
            if a > ll {
                let wa = choose|w: int| 0 <= w < rseq.len() && rseq[w] == rsorted[a - ll - 1];
                assert(rseq[wa] > pivot);
            }
            if b > ll {
                let wb = choose|w: int| 0 <= w < rseq.len() && rseq[w] == rsorted[b - ll - 1];
                assert(rseq[wb] > pivot);
            }
        }
    }
    out
}

} // verus!
