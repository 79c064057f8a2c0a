//! A comparison-based in-place sorting library built around one recursive
//! partition-and-recurse routine with median-of-three pivot selection.
//!
//! Two entry points share the routine: [`quicksort`] returns a freshly
//! allocated sorted copy of its input, and [`quicksort_inplace`] reorders the
//! caller's vector without extra allocation. Both are verified to return a
//! sorted permutation of the input.

use vstd::prelude::*;

verus! {

/// Every pair of positions `i <= j` inside the half-open window `[lo, hi)`
/// of `s` is in ascending order.
pub open spec fn sorted_between(s: Seq<u32>, lo: int, hi: int) -> bool {
    forall|i: int, j: int| lo <= i <= j < hi ==> s[i] <= s[j]
}

/// The whole sequence is sorted ascending.
pub open spec fn sorted(s: Seq<u32>) -> bool {
    sorted_between(s, 0, s.len() as int)
}

/// Returns the smaller of the two values.
fn min_u32(x: u32, y: u32) -> (r: u32)
    ensures
        r == if x <= y { x } else { y },
{
    if x <= y {
        x
    } else {
        y
    }
}

/// Returns the larger of the two values.
fn max_u32(x: u32, y: u32) -> (r: u32)
    ensures
        r == if x >= y { x } else { y },
{
    if x >= y {
        x
    } else {
        y
    }
}

/// Exchanging two positions that both lie inside the window `[lo, hi)`
/// leaves the multiset of elements held by that window unchanged.
proof fn lemma_swap_keeps_window_multiset(s: Seq<u32>, t: Seq<u32>, lo: int, hi: int, i: int, j: int)
    requires
        0 <= lo <= i < hi <= s.len(),
        lo <= j < hi,
        t == s.update(i, s[j]).update(j, s[i]),
    ensures
        t.subrange(lo, hi).to_multiset() == s.subrange(lo, hi).to_multiset(),
{
    broadcast use vstd::seq_lib::group_to_multiset_ensures;
    broadcast use vstd::multiset::group_multiset_axioms;

    let u = s.subrange(lo, hi);
    let v = t.subrange(lo, hi);
    if i == j {
        assert(v =~= u);
    } else {
        assert(v =~= u.update(i - lo, u[j - lo]).update(j - lo, u[i - lo]));
        let w = u.update(i - lo, u[j - lo]);
        assert(w.to_multiset() == u.to_multiset().insert(u[j - lo]).remove(u[i - lo]));
        assert(w[j - lo] == u[j - lo]);
        assert(v.to_multiset() == w.to_multiset().insert(u[i - lo]).remove(u[j - lo]));
        assert(u.to_multiset().count(u[i - lo]) > 0) by {
            assert(u.contains(u[i - lo]));
        }
        assert(u.to_multiset().count(u[j - lo]) > 0) by {
            assert(u.contains(u[j - lo]));
        }
        assert(v.to_multiset() =~= u.to_multiset());
    }
}

/// Two sequences holding the same multiset contain exactly the same values.
proof fn lemma_same_multiset_same_members(s: Seq<u32>, t: Seq<u32>)
    requires
        s.to_multiset() == t.to_multiset(),
    ensures
        forall|x: u32| s.contains(x) <==> t.contains(x),
{
    broadcast use vstd::seq_lib::group_to_multiset_ensures;

    assert forall|x: u32| s.contains(x) <==> t.contains(x) by {
        assert(s.contains(x) <==> s.to_multiset().count(x) > 0);
        assert(t.contains(x) <==> t.to_multiset().count(x) > 0);
    }
}

/// Two windows `[lo, mid)` and `[mid, hi)` that each hold equal multisets in
/// `s` and `t` together make the window `[lo, hi)` hold equal multisets.
proof fn lemma_window_multiset_join(s: Seq<u32>, t: Seq<u32>, lo: int, mid: int, hi: int)
    requires
        0 <= lo <= mid <= hi <= s.len(),
        s.len() == t.len(),
        s.subrange(lo, mid).to_multiset() == t.subrange(lo, mid).to_multiset(),
        s.subrange(mid, hi).to_multiset() == t.subrange(mid, hi).to_multiset(),
    ensures
        s.subrange(lo, hi).to_multiset() == t.subrange(lo, hi).to_multiset(),
{
    assert(s.subrange(lo, hi) =~= s.subrange(lo, mid) + s.subrange(mid, hi));
    assert(t.subrange(lo, hi) =~= t.subrange(lo, mid) + t.subrange(mid, hi));
    vstd::seq_lib::lemma_multiset_commutative(s.subrange(lo, mid), s.subrange(mid, hi));
    vstd::seq_lib::lemma_multiset_commutative(t.subrange(lo, mid), t.subrange(mid, hi));
}

/// Every element of the window `[lo, hi)` of `t` stays below the bound `b`
/// when that window holds the same multiset as a window of `s` whose
/// elements all lie below `b`.
proof fn lemma_window_le_bound(s: Seq<u32>, t: Seq<u32>, lo: int, hi: int, b: u32)
    requires
        0 <= lo <= hi <= s.len(),
        s.len() == t.len(),
        s.subrange(lo, hi).to_multiset() == t.subrange(lo, hi).to_multiset(),
        forall|k: int| lo <= k < hi ==> s[k] <= b,
    ensures
        forall|k: int| lo <= k < hi ==> t[k] <= b,
{
    let u = s.subrange(lo, hi);
    let v = t.subrange(lo, hi);
    lemma_same_multiset_same_members(u, v);
    assert forall|k: int| lo <= k < hi implies t[k] <= b by {
        assert(v[k - lo] == t[k]);
        assert(v.contains(v[k - lo]));
        let i = choose|i: int| 0 <= i < u.len() && u[i] == v[k - lo];
        assert(s[lo + i] == u[i]);
    }
}

/// Mirror image of [`lemma_window_le_bound`] for a lower bound.
proof fn lemma_window_ge_bound(s: Seq<u32>, t: Seq<u32>, lo: int, hi: int, b: u32)
    requires
        0 <= lo <= hi <= s.len(),
        s.len() == t.len(),
        s.subrange(lo, hi).to_multiset() == t.subrange(lo, hi).to_multiset(),
        forall|k: int| lo <= k < hi ==> s[k] >= b,
    ensures
        forall|k: int| lo <= k < hi ==> t[k] >= b,
{
    let u = s.subrange(lo, hi);
    let v = t.subrange(lo, hi);
    lemma_same_multiset_same_members(u, v);
    assert forall|k: int| lo <= k < hi implies t[k] >= b by {
        assert(v[k - lo] == t[k]);
        assert(v.contains(v[k - lo]));
        let i = choose|i: int| 0 <= i < u.len() && u[i] == v[k - lo];
        assert(s[lo + i] == u[i]);
    }
}

/// Exchanges the elements at positions `i` and `j`.
fn swap(data: &mut Vec<u32>, i: usize, j: usize)
    requires
        i < old(data)@.len(),
        j < old(data)@.len(),
    ensures
        final(data)@ == old(data)@.update(i as int, old(data)@[j as int]).update(
            j as int,
            old(data)@[i as int],
        ),
{
    let x = data[i];
    let y = data[j];
    data[i] = y;
    data[j] = x;
}

/// Sorts the window `[start_index, end_index)` of `data` ascending, in place.
///
/// A pivot value is chosen as the median of the values at the window's first,
/// middle and last positions, the window is partitioned around it by two
/// scanning passes, and the two sides are sorted recursively. Positions
/// outside the window are left untouched, and the window keeps the same
/// multiset of elements.
fn _quicksort(data: &mut Vec<u32>, start_index: usize, end_index: usize)
    requires
        start_index <= end_index,
        end_index <= old(data)@.len(),
    ensures
        final(data)@.len() == old(data)@.len(),
        forall|k: int| 0 <= k < start_index ==> final(data)@[k] == old(data)@[k],
        forall|k: int|
            end_index <= k < old(data)@.len() ==> final(data)@[k] == old(data)@[k],
        final(data)@.subrange(start_index as int, end_index as int).to_multiset()
            == old(data)@.subrange(start_index as int, end_index as int).to_multiset(),
        sorted_between(final(data)@, start_index as int, end_index as int),
    decreases end_index - start_index,
{
    let amount = end_index - start_index;
    if amount < 2 {
        return;
    }

    let mid_index = start_index + amount / 2;
    // median of the three candidate values: it keeps already ordered and
    // reversed inputs away from the quadratic worst case of an endpoint pivot
    let pivot = max_u32(
        min_u32(data[start_index], data[end_index - 1]),
        min_u32(max_u32(data[start_index], data[end_index - 1]), data[mid_index]),
    );

    // the position the pivot value came from, checked in a fixed order when
    // several candidate positions hold values equal to the pivot
    let mut pivot_index = if pivot == data[start_index] {
        start_index
    } else if pivot == data[end_index - 1] {
        end_index - 1
    } else {
        mid_index
    };
    assert(data@[pivot_index as int] == pivot);

    let ghost pre = data@;

    // left pass: move every element greater than the pivot to the pivot's
    // right, shifting the pivot one slot left each time
    let mut index = start_index;
    while index < pivot_index
        invariant
            start_index <= index <= pivot_index < end_index,
            end_index <= data@.len(),
            data@.len() == pre.len(),
            data@[pivot_index as int] == pivot,
            forall|k: int| start_index <= k < index ==> data@[k] <= pivot,
            forall|k: int| 0 <= k < start_index ==> data@[k] == pre[k],
            forall|k: int| end_index <= k < pre.len() ==> data@[k] == pre[k],
            data@.subrange(start_index as int, end_index as int).to_multiset()
                == pre.subrange(start_index as int, end_index as int).to_multiset(),
        decreases pivot_index - index,
    {
        if data[index] > pivot {
            let ghost before = data@;
            swap(data, index, pivot_index - 1);
            let ghost step = data@;
            swap(data, pivot_index, pivot_index - 1);
            proof {
                lemma_swap_keeps_window_multiset(
                    before,
                    step,
                    start_index as int,
                    end_index as int,
                    index as int,
                    pivot_index - 1,
                );
                lemma_swap_keeps_window_multiset(
                    step,
                    data@,
                    start_index as int,
                    end_index as int,
                    pivot_index as int,
                    pivot_index - 1,
                );
            }
            // the element that just arrived at `index` is examined next, so
            // `index` stays where it is
            pivot_index = pivot_index - 1;
        } else {
            index = index + 1;
        }
    }

    // right pass: move every element smaller than the pivot to the pivot's
    // left, shifting the pivot one slot right each time
    index = pivot_index + 1;
    while index < end_index
        invariant
            start_index <= pivot_index < index <= end_index,
            end_index <= data@.len(),
            data@.len() == pre.len(),
            data@[pivot_index as int] == pivot,
            forall|k: int| start_index <= k < pivot_index ==> data@[k] <= pivot,
            forall|k: int| pivot_index < k < index ==> data@[k] >= pivot,
            forall|k: int| 0 <= k < start_index ==> data@[k] == pre[k],
            forall|k: int| end_index <= k < pre.len() ==> data@[k] == pre[k],
            data@.subrange(start_index as int, end_index as int).to_multiset()
                == pre.subrange(start_index as int, end_index as int).to_multiset(),
        decreases end_index - index,
    {
        if data[index] < pivot {
            let ghost before = data@;
            swap(data, index, pivot_index + 1);
            let ghost step = data@;
            swap(data, pivot_index, pivot_index + 1);
            proof {
                lemma_swap_keeps_window_multiset(
                    before,
                    step,
                    start_index as int,
                    end_index as int,
                    index as int,
                    pivot_index + 1,
                );
                lemma_swap_keeps_window_multiset(
                    step,
                    data@,
                    start_index as int,
                    end_index as int,
                    pivot_index as int,
                    pivot_index + 1,
                );
            }
            pivot_index = pivot_index + 1;
        }
        index = index + 1;
    }

    let ghost parted = data@;

    // sort the elements on each side of the pivot's final position
    _quicksort(data, start_index, pivot_index);
    let ghost left_done = data@;
    _quicksort(data, pivot_index + 1, end_index);

    proof {
        let lo = start_index as int;
        let pi = pivot_index as int;
        let hi = end_index as int;

        // the pivot itself was touched by neither recursive call
        assert(data@[pi] == pivot);

        // the multiset of the whole window survived both recursive calls
        assert(left_done.subrange(pi, hi) =~= parted.subrange(pi, hi));
        lemma_window_multiset_join(left_done, parted, lo, pi, hi);
        assert(data@.subrange(lo, pi + 1) =~= left_done.subrange(lo, pi + 1));
        lemma_window_multiset_join(data@, left_done, lo, pi + 1, hi);
        assert(data@.subrange(lo, hi).to_multiset() == pre.subrange(lo, hi).to_multiset());

        // each side is still bounded by the pivot after being sorted
        lemma_window_le_bound(parted, left_done, lo, pi, pivot);
        assert(forall|k: int| lo <= k < pi ==> data@[k] <= pivot);
        lemma_window_ge_bound(left_done, data@, pi + 1, hi, pivot);

        // the two sorted sides are kept sorted by the other call
        assert(sorted_between(data@, lo, pi));
        assert(sorted_between(data@, pi + 1, hi));
        assert forall|i: int, j: int| lo <= i <= j < hi implies data@[i] <= data@[j] by {
            if i < pi && pi < j {
                assert(data@[i] <= pivot);
                assert(data@[j] >= pivot);
            }
        }
    }
}

/// Law: two ascending sequences holding the same multiset of elements are
/// one and the same sequence. In particular, sorting cannot change a
/// sequence that is already sorted.
pub proof fn lemma_sorted_same_multiset_equal(s: Seq<u32>, t: Seq<u32>)
    requires
        sorted(s),
        sorted(t),
        s.to_multiset() == t.to_multiset(),
    ensures
        s == t,
{
    let leq = |x: u32, y: u32| x <= y;
    assert(vstd::relations::total_ordering(leq)) by {
        assert(vstd::relations::reflexive(leq));
        assert(vstd::relations::antisymmetric(leq));
        assert(vstd::relations::transitive(leq));
        assert(vstd::relations::strongly_connected(leq));
    }
    assert(vstd::relations::sorted_by(s, leq));
    assert(vstd::relations::sorted_by(t, leq));
    vstd::seq_lib::lemma_sorted_unique(s, t, leq);
    assert(s =~= t);
}

/// Returns a newly allocated ascending copy of `data`; `data` itself is
/// taken by shared reference and stays as it was.
///
/// The result holds exactly the elements of `data`, with their
/// multiplicities, in ascending order; an input that is already sorted comes
/// back as an identical copy.
pub fn quicksort(data: &Vec<u32>) -> (result: Vec<u32>)
    ensures
        result@.len() == data@.len(),
        result@.to_multiset() == data@.to_multiset(),
        sorted(result@),
        sorted(data@) ==> result@ == data@,
{
    let mut result = data.clone();
    assert(result@ == data@);
    let end = result.len();
    _quicksort(&mut result, 0, end);
    proof {
        assert(result@.subrange(0, result@.len() as int) =~= result@);
        assert(data@.subrange(0, data@.len() as int) =~= data@);
        if sorted(data@) {
            lemma_sorted_same_multiset_equal(result@, data@);
        }
    }
    result
}

/// Sorts the caller's vector ascending in place, allocating nothing.
///
/// Afterwards the vector holds exactly the elements it held before, with
/// their multiplicities, in ascending order; a vector that was already
/// sorted is left exactly as it was.
pub fn quicksort_inplace(data: &mut Vec<u32>)
    ensures
        final(data)@.len() == old(data)@.len(),
        final(data)@.to_multiset() == old(data)@.to_multiset(),
        sorted(final(data)@),
        sorted(old(data)@) ==> final(data)@ == old(data)@,
{
    let ghost orig = data@;
    let end = data.len();
    _quicksort(data, 0, end);
    proof {
        assert(data@.subrange(0, data@.len() as int) =~= data@);
        assert(orig.subrange(0, orig.len() as int) =~= orig);
        if sorted(orig) {
            lemma_sorted_same_multiset_equal(data@, orig);
        }
    }
}

} // verus!
