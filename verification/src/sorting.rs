//! Ascending order on hop counts: a merge sort with its proof.

use vstd::prelude::*;
use vstd::seq_lib::{lemma_multiset_commutative, to_multiset_build, to_multiset_len};

verus! {

/// No value is followed by a smaller one.
pub open spec fn ascending(values: Seq<usize>) -> bool {
    forall|i: int, j: int| 0 <= i <= j < values.len() ==> values[i] <= values[j]
}

/// Taking one more element from the front of a sequence adds that element
/// to what has been taken.
proof fn lemma_take_one_more(values: Seq<usize>, count: int)
    requires
        0 <= count < values.len(),
    ensures
        values.take(count + 1).to_multiset() == values.take(count).to_multiset().insert(
            values[count],
        ),
{
    assert(values.take(count + 1) =~= values.take(count).push(values[count]));
    to_multiset_build(values.take(count), values[count]);
}

/// Nothing taken from either side makes up an empty sequence.
proof fn lemma_nothing_taken(merged: Seq<usize>, left: Seq<usize>, right: Seq<usize>)
    requires
        merged.len() == 0,
    ensures
        merged.to_multiset() == left.take(0).to_multiset().add(right.take(0).to_multiset()),
{
    to_multiset_len(merged);
    to_multiset_len(left.take(0));
    to_multiset_len(right.take(0));
    assert(merged.to_multiset() =~= left.take(0).to_multiset().add(right.take(0).to_multiset()));
}

/// Merges two ascending vectors into one.
fn merge(left: &Vec<usize>, right: &Vec<usize>) -> (merged: Vec<usize>)
    requires
        ascending(left@),
        ascending(right@),
        left.len() + right.len() <= usize::MAX,
    ensures
        ascending(merged@),
        merged@.to_multiset() == left@.to_multiset().add(right@.to_multiset()),
        merged.len() == left.len() + right.len(),
{
    let mut merged: Vec<usize> = Vec::new();
    let mut i: usize = 0;
    let mut j: usize = 0;
    proof {
        lemma_nothing_taken(merged@, left@, right@);
    }
    while i < left.len() || j < right.len()
        invariant
            ascending(left@),
            ascending(right@),
            ascending(merged@),
            i <= left.len(),
            j <= right.len(),
            merged.len() == i + j,
            left.len() + right.len() <= usize::MAX,
            merged@.to_multiset() == left@.take(i as int).to_multiset().add(
                right@.take(j as int).to_multiset(),
            ),
            merged.len() > 0 && i < left.len() ==> merged@.last() <= left[i as int],
            merged.len() > 0 && j < right.len() ==> merged@.last() <= right[j as int],
        decreases left.len() - i + (right.len() - j),
    {
        let ghost before = merged@;
        if j == right.len() || (i < left.len() && left[i] <= right[j]) {
            let value = left[i];
            merged.push(value);
            proof {
                lemma_take_one_more(left@, i as int);
                to_multiset_build(before, value);
                assert(merged@.to_multiset() =~= left@.take(i + 1).to_multiset().add(
                    right@.take(j as int).to_multiset(),
                ));
                if i + 1 < left.len() {
                    assert(left[i as int] <= left[i + 1]);
                }
            }
            i = i + 1;
        } else {
            let value = right[j];
            merged.push(value);
            proof {
                lemma_take_one_more(right@, j as int);
                to_multiset_build(before, value);
                assert(merged@.to_multiset() =~= left@.take(i as int).to_multiset().add(
                    right@.take(j + 1).to_multiset(),
                ));
                if j + 1 < right.len() {
                    assert(right[j as int] <= right[j + 1]);
                }
            }
            j = j + 1;
        }
        proof {
            assert forall|a: int, b: int| 0 <= a <= b < merged@.len() implies merged@[a]
                <= merged@[b] by {
                if b < before.len() {
                    assert(before[a] <= before[b]);
                } else if a < before.len() {
                    assert(before[a] <= before.last());
                }
            }
        }
    }
    proof {
        assert(left@.take(i as int) =~= left@);
        assert(right@.take(j as int) =~= right@);
    }
    merged
}

/// Returns the values at positions `from..to` in ascending order.
fn sort_range(values: &Vec<usize>, from: usize, to: usize) -> (sorted: Vec<usize>)
    requires
        from <= to <= values.len(),
    ensures
        ascending(sorted@),
        sorted@.to_multiset() == values@.subrange(from as int, to as int).to_multiset(),
        sorted.len() == to - from,
    decreases to - from,
{
    let mut sorted: Vec<usize> = Vec::new();
    if to - from == 0 {
        assert(sorted@ =~= values@.subrange(from as int, to as int));
        sorted
    } else if to - from == 1 {
        sorted.push(values[from]);
        assert(sorted@ =~= values@.subrange(from as int, to as int));
        sorted
    } else {
        let middle: usize = from + (to - from) / 2;
        let left = sort_range(values, from, middle);
        let right = sort_range(values, middle, to);
        proof {
            let lower = values@.subrange(from as int, middle as int);
            let upper = values@.subrange(middle as int, to as int);
            assert(values@.subrange(from as int, to as int) =~= lower + upper);
            lemma_multiset_commutative(lower, upper);
        }
        merge(&left, &right)
    }
}

/// Returns the values of `values` in ascending order: the same values,
/// each as often as it occurs in `values`.
pub fn sort_ascending(values: &Vec<usize>) -> (sorted: Vec<usize>)
    ensures
        ascending(sorted@),
        sorted@.to_multiset() == values@.to_multiset(),
        sorted.len() == values.len(),
{
    assert(values@.subrange(0, values.len() as int) =~= values@);
    sort_range(values, 0, values.len())
}

} // verus!
