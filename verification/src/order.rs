//! Putting a list in ascending order while keeping hold of where everything stood.
//!
//! Things that run parallel with a list, such as the wires it is written on or a partition of it, follow it into
//! the new order by way of the positions it was put in order by.

use vstd::prelude::*;

verus! {

/// Where a value goes among positions already in order: behind everything that is no greater.
pub open spec fn slot(values: Seq<usize>, order: Seq<int>, value: usize) -> int
    decreases order.len(),
{
    if order.len() == 0 {
        0
    } else if values[order.last()] <= value {
        order.len() as int
    } else {
        slot(values, order.drop_last(), value)
    }
}

/// The first positions of a list, in ascending order of what stands there.
pub open spec fn ascent_to(values: Seq<usize>, count: nat) -> Seq<int>
    decreases count,
{
    if count == 0 {
        Seq::empty()
    } else {
        let before = ascent_to(values, (count - 1) as nat);
        before.insert(slot(values, before, values[count - 1]), count - 1)
    }
}

/// The positions of a list, in ascending order of what stands there.
pub open spec fn ascent(values: Seq<usize>) -> Seq<int> {
    ascent_to(values, values.len())
}

/// What stands at some positions, in the order of the positions.
pub open spec fn arranged<T>(items: Seq<T>, order: Seq<int>) -> Seq<T> {
    order.map_values(|position: int| items[position])
}

/// Whether a list names every position below its length once.
pub open spec fn permutes(order: Seq<int>) -> bool {
    &&& order.no_duplicates()
    &&& forall|k: int| 0 <= k < order.len() ==> 0 <= (#[trigger] order[k]) < order.len()
    &&& forall|position: int|
        0 <= position < order.len() ==> #[trigger] order.contains(position)
}

/// Whether a list is in ascending order, nothing in it twice.
pub open spec fn ascends(values: Seq<usize>) -> bool {
    forall|i: int, j: int|
        0 <= i < j < values.len() ==> (#[trigger] values[i]) < (#[trigger] values[j])
}

proof fn lemma_slot(values: Seq<usize>, order: Seq<int>, value: usize)
    requires
        forall|i: int, j: int|
            #![trigger order[i], order[j]]
            0 <= i < j < order.len() ==> values[order[i]] <= values[order[j]],
    ensures
        0 <= slot(values, order, value) <= order.len(),
        forall|k: int|
            0 <= k < slot(values, order, value) ==> values[#[trigger] order[k]] <= value,
        forall|k: int|
            slot(values, order, value) <= k < order.len() ==> value < values[#[trigger] order[k]],
    decreases order.len(),
{
    if order.len() > 0 {
        let front = order.drop_last();
        if values[order.last()] <= value {
            assert forall|k: int| 0 <= k < order.len() implies values[#[trigger] order[k]] <= value by {
                if k < order.len() - 1 {
                    assert(values[order[k]] <= values[order[order.len() - 1]]);
                }
            }
        } else {
            assert forall|i: int, j: int|
                #![trigger front[i], front[j]]
                0 <= i < j < front.len() implies values[front[i]] <= values[front[j]] by {
                assert(front[i] == order[i] && front[j] == order[j]);
            }
            lemma_slot(values, front, value);
            let at = slot(values, front, value);
            assert forall|k: int| 0 <= k < at implies values[#[trigger] order[k]] <= value by {
                assert(front[k] == order[k]);
            }
            assert forall|k: int| at <= k < order.len() implies value < values[#[trigger] order[k]] by {
                if k < front.len() {
                    assert(front[k] == order[k]);
                }
            }
        }
    }
}

proof fn lemma_ascent_to(values: Seq<usize>, count: nat)
    requires
        count <= values.len(),
    ensures
        ascent_to(values, count).len() == count,
        permutes(ascent_to(values, count)),
        forall|i: int, j: int|
            #![trigger ascent_to(values, count)[i], ascent_to(values, count)[j]]
            0 <= i < j < count ==> values[ascent_to(values, count)[i]] <= values[ascent_to(
                values,
                count,
            )[j]],
    decreases count,
{
    if count > 0 {
        let before = ascent_to(values, (count - 1) as nat);
        lemma_ascent_to(values, (count - 1) as nat);
        let last = values[count - 1];
        lemma_slot(values, before, last);
        let at = slot(values, before, last);
        let order = ascent_to(values, count);
        assert(order == before.insert(at, count - 1));
        assert(order.len() == count);
        assert forall|k: int| 0 <= k < count implies (#[trigger] order[k]) == (if k < at {
            before[k]
        } else if k == at {
            count - 1
        } else {
            before[k - 1]
        }) by {}
        assert forall|position: int| 0 <= position < count implies #[trigger] order.contains(position) by {
            if position == count - 1 {
                assert(order[at] == position);
            } else {
                assert(before.contains(position));
                let k = choose|k: int| 0 <= k < before.len() && before[k] == position;
                if k < at {
                    assert(order[k] == position);
                } else {
                    assert(order[k + 1] == position);
                }
            }
        }
        assert forall|i: int, j: int|
            #![trigger order[i], order[j]]
            0 <= i < j < count implies values[order[i]] <= values[order[j]] && order[i] != order[j] by {
            if i < at && at < j {
                assert(values[before[i]] <= values[before[j - 1]]);
            } else if at < i {
                assert(values[before[i - 1]] <= values[before[j - 1]]);
            } else if j < at {
                assert(values[before[i]] <= values[before[j]]);
            }
        }
        assert forall|i: int, j: int| 0 <= i < order.len() && 0 <= j < order.len() && i != j implies order[i]
            != order[j] by {
            if i < j {
                assert(values[order[i]] <= values[order[j]]);
            } else {
                assert(values[order[j]] <= values[order[i]]);
            }
        }
    }
}

/// Putting a list in order names each of its positions once, and what stands there never falls; where nothing is
/// in the list twice, it ascends.
pub proof fn lemma_ascent_sorts(values: Seq<usize>)
    ensures
        ascent(values).len() == values.len(),
        permutes(ascent(values)),
        forall|i: int, j: int|
            0 <= i < j < values.len() ==> (#[trigger] arranged(values, ascent(values))[i]) <= (
            #[trigger] arranged(values, ascent(values))[j]),
        values.no_duplicates() ==> ascends(arranged(values, ascent(values))),
        arranged(values, ascent(values)).to_set() == values.to_set(),
{
    lemma_ascent_to(values, values.len());
    let order = ascent(values);
    let sorted = arranged(values, order);
    assert forall|i: int, j: int| 0 <= i < j < values.len() implies (#[trigger] sorted[i]) <= (
    #[trigger] sorted[j]) by {
        assert(values[order[i]] <= values[order[j]]);
    }
    if values.no_duplicates() {
        assert forall|i: int, j: int| 0 <= i < j < sorted.len() implies (#[trigger] sorted[i]) < (
        #[trigger] sorted[j]) by {
            assert(order[i] != order[j]);
            assert(values[order[i]] != values[order[j]]);
        }
    }
    assert forall|value: usize| sorted.to_set().contains(value) <==> values.to_set().contains(value) by {
        if sorted.to_set().contains(value) {
            let k = choose|k: int| 0 <= k < sorted.len() && sorted[k] == value;
            assert(values[order[k]] == value);
        }
        if values.to_set().contains(value) {
            let p = choose|p: int| 0 <= p < values.len() && values[p] == value;
            assert(order.contains(p));
            let k = choose|k: int| 0 <= k < order.len() && order[k] == p;
            assert(sorted[k] == value);
        }
    }
    assert(sorted.to_set() =~= values.to_set());
}

/// A list named by all its positions, each once, holds what it held, each thing as often.
pub proof fn lemma_arranging_loses_nothing<T>(items: Seq<T>, order: Seq<int>)
    requires
        permutes(order),
        order.len() == items.len(),
    ensures
        arranged(items, order).to_multiset() == items.to_multiset(),
    decreases items.len(),
{
    broadcast use vstd::seq_lib::group_to_multiset_ensures;

    let listed = arranged(items, order);
    if items.len() == 0 {
        assert(listed =~= items);
    } else {
        let last = items.len() - 1;
        assert(order.contains(last));
        let k = choose|k: int| 0 <= k < order.len() && order[k] == last;
        let fewer = order.remove(k);
        assert forall|i: int| 0 <= i < fewer.len() implies 0 <= (#[trigger] fewer[i]) < fewer.len() by {
            let from = if i < k {
                i
            } else {
                i + 1
            };
            assert(fewer[i] == order[from]);
            assert(order[from] != order[k]);
        }
        assert forall|position: int| 0 <= position < fewer.len() implies #[trigger] fewer.contains(
            position,
        ) by {
            assert(order.contains(position));
            let j = choose|j: int| 0 <= j < order.len() && order[j] == position;
            if j < k {
                assert(fewer[j] == position);
            } else {
                assert(fewer[j - 1] == position);
            }
        }
        lemma_arranging_loses_nothing(items.drop_last(), fewer);
        assert(listed.remove(k) =~= arranged(items.drop_last(), fewer));
        assert(items.drop_last().push(items.last()) =~= items);
        assert(listed[k] == items.last());
        assert(listed.contains(items.last()));
        assert(listed.to_multiset() =~= items.to_multiset());
    }
}

/// A list that ascends is put in order by leaving it as it is.
pub proof fn lemma_ascent_of_ascending(values: Seq<usize>)
    requires
        ascends(values),
    ensures
        ascent(values) == Seq::new(values.len(), |k: int| k),
        arranged(values, ascent(values)) == values,
{
    lemma_ascent_of_prefix(values, values.len());
    assert(arranged(values, ascent(values)) =~= values);
}

proof fn lemma_ascent_of_prefix(values: Seq<usize>, count: nat)
    requires
        ascends(values),
        count <= values.len(),
    ensures
        ascent_to(values, count) == Seq::new(count, |k: int| k),
    decreases count,
{
    let plain = Seq::new(count, |k: int| k);
    if count == 0 {
        assert(ascent_to(values, count) =~= plain);
    } else {
        lemma_ascent_of_prefix(values, (count - 1) as nat);
        let before = ascent_to(values, (count - 1) as nat);
        if count > 1 {
            assert(before.last() == count - 2);
            assert(values[count - 2] < values[count - 1]);
        }
        assert(slot(values, before, values[count - 1]) == count - 1);
        assert(ascent_to(values, count) =~= plain);
    }
}

/// Positions as they are counted.
pub open spec fn positions(order: Seq<usize>) -> Seq<int> {
    order.map_values(|position: usize| position as int)
}

/// The positions of a list, in ascending order of what stands there.
pub fn in_order(values: &Vec<usize>) -> (order: Vec<usize>)
    ensures
        positions(order@) == ascent(values@),
        permutes(positions(order@)),
        order.len() == values.len(),
{
    let mut order: Vec<usize> = Vec::new();
    assert(positions(order@) =~= ascent_to(values@, 0));
    let mut count: usize = 0;
    while count < values.len()
        invariant
            count <= values.len(),
            order.len() == count,
            positions(order@) == ascent_to(values@, count as nat),
        decreases values.len() - count,
    {
        let ghost before = positions(order@);
        let value: usize = values[count];
        proof {
            lemma_ascent_to(values@, count as nat);
            lemma_slot(values@, before, value);
            assert(before.take(count as int) =~= before);
        }
        let mut at: usize = count;
        while at > 0 && values[order[at - 1]] > value
            invariant
                at <= count,
                order.len() == count,
                count < values.len(),
                before == positions(order@),
                forall|k: int| 0 <= k < before.len() ==> 0 <= (#[trigger] before[k]) < count,
                forall|k: int| 0 <= k < order@.len() ==> (#[trigger] order@[k]) == before[k],
                slot(values@, before, value) == slot(values@, before.take(at as int), value),
            decreases at,
        {
            proof {
                let front = before.take(at as int);
                assert(front.last() == order@[at - 1]);
                assert(front.drop_last() =~= before.take(at - 1));
            }
            at -= 1;
        }
        proof {
            let front = before.take(at as int);
            if at > 0 {
                assert(front.last() == order@[at - 1]);
            }
            assert(slot(values@, before, value) == at);
        }
        let ghost listed = order@;
        order.insert(at, count);
        count += 1;
        proof {
            assert(order@ == listed.insert(at as int, (count - 1) as usize));
            assert(positions(order@) =~= before.insert(at as int, count - 1));
        }
    }
    proof {
        lemma_ascent_to(values@, values@.len());
    }
    order
}

/// What stands at some positions, in the order of the positions.
pub fn arrange(items: &Vec<usize>, order: &Vec<usize>) -> (list: Vec<usize>)
    requires
        forall|k: int| 0 <= k < order@.len() ==> (#[trigger] order@[k]) < items@.len(),
    ensures
        list@ == arranged(items@, positions(order@)),
{
    let mut list: Vec<usize> = Vec::new();
    let mut i: usize = 0;
    while i < order.len()
        invariant
            i <= order.len(),
            forall|k: int| 0 <= k < order@.len() ==> (#[trigger] order@[k]) < items@.len(),
            list@ == arranged(items@, positions(order@)).take(i as int),
        decreases order.len() - i,
    {
        list.push(items[order[i]]);
        assert(list@ =~= arranged(items@, positions(order@)).take(i + 1));
        i += 1;
    }
    assert(arranged(items@, positions(order@)).take(i as int) =~= arranged(
        items@,
        positions(order@),
    ));
    list
}

} // verus!
