//! Small computations that the node needs.

use vstd::prelude::*;

verus! {

/// A run of numbers in order, with one more put in: behind every number
/// that is not greater than it.
pub open spec fn insert_ordered(sorted: Seq<u64>, v: u64) -> Seq<u64>
    decreases sorted.len(),
{
    if sorted.len() == 0 {
        seq![v]
    } else if sorted.last() <= v {
        sorted.push(v)
    } else {
        insert_ordered(sorted.drop_last(), v).push(sorted.last())
    }
}

/// The numbers in order.
pub open spec fn in_order(values: Seq<u64>) -> Seq<u64>
    decreases values.len(),
{
    if values.len() == 0 {
        Seq::empty()
    } else {
        insert_ordered(in_order(values.drop_last()), values.last())
    }
}

/// Whether a run of numbers never goes down.
pub open spec fn ordered(values: Seq<u64>) -> bool {
    forall|i: int, j: int| 0 <= i <= j < values.len() ==> values[i] <= values[j]
}

/// Where the insertion puts a number: at the position from which on all
/// numbers are greater, and before which the number is not.
pub proof fn lemma_insert_ordered_at(sorted: Seq<u64>, v: u64, pos: int)
    requires
        0 <= pos <= sorted.len(),
        forall|j: int| pos <= j < sorted.len() ==> sorted[j] > v,
        pos == 0 || sorted[pos - 1] <= v,
    ensures
        insert_ordered(sorted, v) == sorted.insert(pos, v),
    decreases sorted.len(),
{
    if sorted.len() == 0 {
        assert(sorted.insert(0, v) =~= seq![v]);
    } else if pos == sorted.len() {
        assert(sorted.insert(pos, v) =~= sorted.push(v));
    } else {
        lemma_insert_ordered_at(sorted.drop_last(), v, pos);
        assert(sorted.drop_last().insert(pos, v).push(sorted.last()) =~= sorted.insert(pos, v));
    }
}

/// Insertion keeps the order, and keeps every number.
pub proof fn lemma_insert_keeps_order(sorted: Seq<u64>, v: u64)
    requires
        ordered(sorted),
    ensures
        ordered(insert_ordered(sorted, v)),
        insert_ordered(sorted, v).to_multiset() == sorted.to_multiset().insert(v),
        insert_ordered(sorted, v).len() == sorted.len() + 1,
    decreases sorted.len(),
{
    broadcast use vstd::seq_lib::group_to_multiset_ensures;

    if sorted.len() == 0 {
        assert(sorted =~= Seq::empty());
    } else if sorted.last() <= v {
    } else {
        let front = sorted.drop_last();
        lemma_insert_keeps_order(front, v);
        let placed = insert_ordered(front, v);
        assert(sorted =~= front.push(sorted.last()));
        assert forall|i: int, j: int| 0 <= i <= j < placed.push(sorted.last()).len() implies placed.push(
            sorted.last(),
        )[i] <= placed.push(sorted.last())[j] by {
            if j == placed.len() && i < placed.len() {
                assert(placed.to_multiset().contains(placed[i]));
                if placed[i] != v {
                    assert(front.to_multiset().contains(placed[i]));
                    let k = choose|k: int| 0 <= k < front.len() && front[k] == placed[i];
                    assert(sorted[k] == front[k]);
                }
            }
        }
    }
}

/// The numbers in order are in order, and are the same numbers, each as
/// often as it came.
pub proof fn lemma_in_order(values: Seq<u64>)
    ensures
        ordered(in_order(values)),
        in_order(values).to_multiset() == values.to_multiset(),
        in_order(values).len() == values.len(),
    decreases values.len(),
{
    broadcast use vstd::seq_lib::group_to_multiset_ensures;

    if values.len() == 0 {
        assert(values =~= Seq::empty());
    } else {
        lemma_in_order(values.drop_last());
        lemma_insert_keeps_order(in_order(values.drop_last()), values.last());
        assert(values =~= values.drop_last().push(values.last()));
    }
}

/// The numbers in order.
pub fn sort(values: &Vec<u64>) -> (sorted: Vec<u64>)
    ensures
        sorted@ == in_order(values@),
        sorted@.len() == values@.len(),
{
    let mut sorted: Vec<u64> = Vec::new();
    let mut i: usize = 0;
    assert(values@.take(0) =~= Seq::<u64>::empty());
    while i < values.len()
        invariant
            i <= values.len(),
            sorted@ == in_order(values@.take(i as int)),
            sorted@.len() == i,
        decreases values.len() - i,
    {
        let v = values[i];
        let mut pos: usize = sorted.len();
        while pos > 0 && sorted[pos - 1] > v
            invariant
                pos <= sorted.len(),
                forall|j: int| pos <= j < sorted.len() ==> sorted@[j] > v,
            decreases pos,
        {
            pos = pos - 1;
        }
        proof {
            lemma_insert_ordered_at(sorted@, v, pos as int);
            assert(values@.take(i as int + 1).drop_last() =~= values@.take(i as int));
            assert(values@.take(i as int + 1).last() == v);
        }
        sorted.insert(pos, v);
        i = i + 1;
    }
    assert(values@.take(values@.len() as int) =~= values@);
    sorted
}

/// The median of a run of numbers that is not empty: of the numbers in
/// order, the one in the middle, and the upper of the two in the middle
/// where their number is even.
pub fn median(values: &Vec<u64>) -> (m: u64)
    requires
        values@.len() > 0,
    ensures
        m == in_order(values@)[values@.len() as int / 2],
{
    let sorted = sort(values);
    sorted[sorted.len() / 2]
}

} // verus!
