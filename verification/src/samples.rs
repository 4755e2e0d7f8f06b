//! Samples: the values of one series, of which some may be missing.

use vstd::prelude::*;
use vstd::relations::total_ordering;
use vstd::seq_lib::lemma_sorted_unique;
use vstd::seq_lib::group_to_multiset_ensures;
use vstd::seq_lib::lemma_multiset_commutative;
use vstd::seq_lib::to_multiset_build;

verus! {

/// The largest number of samples that a series can hold.
pub const MAX_SAMPLES: usize = 0xffff_ffff;

/// The values of `samples` that are there, in their order.
pub open spec fn present(samples: Seq<Option<i32>>) -> Seq<i32>
    decreases samples.len(),
{
    if samples.len() == 0 {
        Seq::empty()
    } else {
        match samples.last() {
            Some(v) => present(samples.drop_last()).push(v),
            None => present(samples.drop_last()),
        }
    }
}

/// There are no more values than samples.
pub proof fn lemma_present_len(samples: Seq<Option<i32>>)
    ensures
        present(samples).len() <= samples.len(),
    decreases samples.len(),
{
    if samples.len() > 0 {
        lemma_present_len(samples.drop_last());
    }
}

/// The least of the values; of no values, zero.
pub open spec fn least(values: Seq<i32>) -> int
    decreases values.len(),
{
    if values.len() == 0 {
        0
    } else if values.len() == 1 {
        values[0] as int
    } else if values.last() < least(values.drop_last()) {
        values.last() as int
    } else {
        least(values.drop_last())
    }
}

/// The largest of the values; of no values, zero.
pub open spec fn largest(values: Seq<i32>) -> int
    decreases values.len(),
{
    if values.len() == 0 {
        0
    } else if values.len() == 1 {
        values[0] as int
    } else if values.last() > largest(values.drop_last()) {
        values.last() as int
    } else {
        largest(values.drop_last())
    }
}

/// Every value lies between the least and the largest, and both are values.
pub proof fn lemma_extremes(values: Seq<i32>)
    requires
        values.len() > 0,
    ensures
        forall|i: int| 0 <= i < values.len() ==> least(values) <= #[trigger] values[i] <= largest(values),
        exists|i: int| 0 <= i < values.len() && values[i] == least(values),
        exists|i: int| 0 <= i < values.len() && values[i] == largest(values),
    decreases values.len(),
{
    if values.len() == 1 {
        assert(values[0] == least(values));
        assert(values[0] == largest(values));
    } else {
        let front = values.drop_last();
        lemma_extremes(front);
        assert forall|i: int| 0 <= i < values.len() implies least(values) <= #[trigger] values[i]
            <= largest(values) by {
            if i < front.len() {
                assert(values[i] == front[i]);
            }
        }
        let a = choose|i: int| 0 <= i < front.len() && front[i] == least(front);
        let b = choose|i: int| 0 <= i < front.len() && front[i] == largest(front);
        assert(values[a] == front[a] && values[b] == front[b]);
        let last = values.len() - 1;
        assert(values[last] == values.last());
        assert(values[a] == least(values) || values[last] == least(values));
        assert(values[b] == largest(values) || values[last] == largest(values));
    }
}

/// The least and the largest of the values.
pub fn extremes(values: &[i32]) -> (ends: (i32, i32))
    requires
        values@.len() > 0,
    ensures
        ends.0 == least(values@),
        ends.1 == largest(values@),
        ends.0 <= ends.1,
{
    let mut lo: i32 = values[0];
    let mut hi: i32 = values[0];
    let mut i: usize = 1;
    assert(values@.take(1).len() == 1);
    while i < values.len()
        invariant
            1 <= i <= values.len(),
            lo == least(values@.take(i as int)),
            hi == largest(values@.take(i as int)),
            lo <= hi,
        decreases values.len() - i,
    {
        assert(values@.take(i + 1).drop_last() =~= values@.take(i as int));
        let v: i32 = values[i];
        if v < lo {
            lo = v;
        }
        if v > hi {
            hi = v;
        }
        i = i + 1;
    }
    assert(values@.take(values.len() as int) =~= values@);
    (lo, hi)
}

/// No value comes before a smaller one.
pub open spec fn ascending(values: Seq<i32>) -> bool {
    forall|i: int, j: int| 0 <= i < j < values.len() ==> values[i] <= values[j]
}

/// The values in ascending order.
pub open spec fn in_order(values: Seq<i32>) -> Seq<i32> {
    values.sort_by(|a: i32, b: i32| a <= b)
}

/// Ordering keeps every value, as often as it occurs, and puts them in ascending order;
/// and it is the only arrangement that does.
pub proof fn lemma_in_order(values: Seq<i32>)
    ensures
        ascending(in_order(values)),
        in_order(values).to_multiset() == values.to_multiset(),
        in_order(values).len() == values.len(),
        forall|other: Seq<i32>|
            ascending(other) && other.to_multiset() == values.to_multiset() ==> other == in_order(
                values,
            ),
{
    broadcast use group_to_multiset_ensures;

    let leq = |a: i32, b: i32| a <= b;
    assert(total_ordering(leq));
    values.lemma_sort_by_ensures(leq);
    let sorted = in_order(values);
    assert forall|i: int, j: int| 0 <= i < j < sorted.len() implies sorted[i] <= sorted[j] by {
        assert(leq(sorted[i], sorted[j]));
    }
    assert(sorted.to_multiset().len() == values.to_multiset().len());
    assert forall|other: Seq<i32>|
        ascending(other) && other.to_multiset() == values.to_multiset() implies other == in_order(
        values,
    ) by {
        assert forall|i: int, j: int| 0 <= i < j < other.len() implies #[trigger] leq(
            other[i],
            other[j],
        ) by {}
        lemma_sorted_unique(other, in_order(values), leq);
    }
}

/// In ascending order the least value comes first and the largest last.
pub proof fn lemma_in_order_ends(values: Seq<i32>)
    requires
        values.len() > 0,
    ensures
        in_order(values).len() > 0,
        in_order(values)[0] == least(values),
        in_order(values).last() == largest(values),
{
    broadcast use group_to_multiset_ensures;

    let sorted = in_order(values);
    lemma_in_order(values);
    lemma_extremes(values);
    let a = choose|i: int| 0 <= i < values.len() && values[i] == least(values);
    let b = choose|i: int| 0 <= i < values.len() && values[i] == largest(values);
    assert(values.to_multiset().contains(values[a]));
    assert(values.to_multiset().contains(values[b]));
    assert(sorted.contains(values[a]));
    assert(sorted.contains(values[b]));
    let i = choose|i: int| 0 <= i < sorted.len() && sorted[i] == values[a];
    let j = choose|j: int| 0 <= j < sorted.len() && sorted[j] == values[b];
    assert(sorted.to_multiset().contains(sorted[0]));
    assert(sorted.to_multiset().contains(sorted.last()));
    assert(values.contains(sorted[0]));
    assert(values.contains(sorted.last()));
    let first = choose|k: int| 0 <= k < values.len() && values[k] == sorted[0];
    let last = choose|k: int| 0 <= k < values.len() && values[k] == sorted.last();
    assert(least(values) <= values[first]);
    assert(values[last] <= largest(values));
    if i > 0 {
        assert(sorted[0] <= sorted[i]);
    }
    if j < sorted.len() - 1 {
        assert(sorted[j] <= sorted[sorted.len() - 1]);
    }
}

/// The values of `samples` that are there, in their order.
pub fn present_values(samples: &[Option<i32>]) -> (values: Vec<i32>)
    ensures
        values@ == present(samples@),
{
    let mut values: Vec<i32> = Vec::new();
    let mut i: usize = 0;
    assert(samples@.take(0) =~= Seq::empty());
    while i < samples.len()
        invariant
            i <= samples.len(),
            values@ == present(samples@.take(i as int)),
        decreases samples.len() - i,
    {
        assert(samples@.take(i + 1).drop_last() =~= samples@.take(i as int));
        match samples[i] {
            Some(v) => {
                values.push(v);
            },
            None => {},
        }
        i = i + 1;
    }
    assert(samples@.take(samples.len() as int) =~= samples@);
    values
}

/// The values in ascending order.
pub fn sorted_values(values: Vec<i32>) -> (sorted: Vec<i32>)
    ensures
        sorted@ == in_order(values@),
    decreases values@.len(),
{
    broadcast use group_to_multiset_ensures;

    let count: usize = values.len();
    proof {
        lemma_in_order(values@);
    }
    if count <= 1 {
        return values;
    }
    let middle: usize = count / 2;
    let left: Vec<i32> = sorted_values(copy_of(&values, 0, middle));
    let right: Vec<i32> = sorted_values(copy_of(&values, middle, count));
    proof {
        let front = values@.subrange(0, middle as int);
        let back = values@.subrange(middle as int, count as int);
        lemma_in_order(front);
        lemma_in_order(back);
        assert(values@ =~= front + back);
        lemma_multiset_commutative(front, back);
    }
    merged(&left, &right)
}

/// The values from the index `from` up to, not including, the index `to`.
fn copy_of(values: &Vec<i32>, from: usize, to: usize) -> (part: Vec<i32>)
    requires
        from <= to <= values@.len(),
    ensures
        part@ == values@.subrange(from as int, to as int),
{
    let mut part: Vec<i32> = Vec::new();
    let mut i: usize = from;
    while i < to
        invariant
            from <= i <= to,
            to <= values@.len(),
            part@ == values@.subrange(from as int, i as int),
        decreases to - i,
    {
        part.push(values[i]);
        assert(values@.subrange(from as int, i + 1) =~= values@.subrange(from as int, i as int).push(
            values@[i as int],
        ));
        i = i + 1;
    }
    part
}

/// The values of two ascending runs, in ascending order.
fn merged(left: &Vec<i32>, right: &Vec<i32>) -> (all: Vec<i32>)
    requires
        ascending(left@),
        ascending(right@),
    ensures
        ascending(all@),
        all@.to_multiset() == left@.to_multiset().add(right@.to_multiset()),
{
    broadcast use group_to_multiset_ensures;

    let mut all: Vec<i32> = Vec::new();
    let mut i: usize = 0;
    let mut j: usize = 0;
    assert(left@.take(0) =~= Seq::<i32>::empty());
    assert(right@.take(0) =~= Seq::<i32>::empty());
    assert(all@.to_multiset() =~= left@.take(0).to_multiset().add(right@.take(0).to_multiset()));
    while i < left.len() || j < right.len()
        invariant
            i <= left@.len(),
            j <= right@.len(),
            ascending(left@),
            ascending(right@),
            ascending(all@),
            all@.len() == i + j,
            all@.to_multiset() == left@.take(i as int).to_multiset().add(
                right@.take(j as int).to_multiset(),
            ),
            forall|k: int| 0 <= k < all@.len() && i < left@.len() ==> all@[k] <= left@[i as int],
            forall|k: int| 0 <= k < all@.len() && j < right@.len() ==> all@[k] <= right@[j as int],
        decreases left@.len() - i + right@.len() - j,
    {
        let ghost before = all@;
        let from_left: bool = if j >= right.len() {
            true
        } else if i >= left.len() {
            false
        } else {
            left[i] <= right[j]
        };
        if from_left {
            let v: i32 = left[i];
            all.push(v);
            proof {
                assert(left@.take(i + 1) =~= left@.take(i as int).push(v));
                assert(all@ =~= before.push(v));
                to_multiset_build(before, v);
                to_multiset_build(left@.take(i as int), v);
                assert(all@.to_multiset() =~= left@.take(i + 1).to_multiset().add(
                    right@.take(j as int).to_multiset(),
                ));
                if i + 1 < left@.len() {
                    assert(left@[i as int] <= left@[i + 1]);
                }
            }
            i = i + 1;
        } else {
            let v: i32 = right[j];
            all.push(v);
            proof {
                assert(right@.take(j + 1) =~= right@.take(j as int).push(v));
                assert(all@ =~= before.push(v));
                to_multiset_build(before, v);
                to_multiset_build(right@.take(j as int), v);
                assert(all@.to_multiset() =~= left@.take(i as int).to_multiset().add(
                    right@.take(j + 1).to_multiset(),
                ));
                if j + 1 < right@.len() {
                    assert(right@[j as int] <= right@[j + 1]);
                }
            }
            j = j + 1;
        }
    }
    assert(left@.take(left@.len() as int) =~= left@);
    assert(right@.take(right@.len() as int) =~= right@);
    all
}

} // verus!
