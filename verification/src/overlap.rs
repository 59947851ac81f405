//! Joining lists of indices that overlap.
//!
//! Two groups of qubits that share one cannot be told apart afterwards: whatever samples them jointly is one
//! draw. Overlapping groups therefore coarsen into one part, and the parts come out in ascending order of their
//! lowest index, so that the result does not depend on the order the groups were met in.

use vstd::prelude::*;

use crate::collections::IndexMap;
use crate::order::ascends;
use crate::partition::is_partition;
use crate::partition::lemma_scan_finds_partitions;
use crate::partition::nested;
use crate::partition::total;
use crate::partition::Partition;

verus! {

// --- Labels: every index is labelled by the lowest one it is joined with --------------------------

/// Labels of indices that are joined with nothing but themselves.
pub open spec fn apart_labels(width: nat) -> Seq<usize> {
    Seq::new(width, |i: int| i as usize)
}

/// Labels once two indices are joined: whatever goes by the higher of their labels goes by the lower.
pub open spec fn joined_labels(labels: Seq<usize>, one: usize, other: usize) -> Seq<usize> {
    let (low, high) = if labels[one as int] <= labels[other as int] {
        (labels[one as int], labels[other as int])
    } else {
        (labels[other as int], labels[one as int])
    };
    labels.map_values(
        |label: usize|
            if label == high {
                low
            } else {
                label
            },
    )
}

/// Labels once all of some indices are joined with the first of them.
pub open spec fn gathered_labels(labels: Seq<usize>, group: Seq<usize>) -> Seq<usize>
    decreases group.len(),
{
    if group.len() <= 1 {
        labels
    } else {
        joined_labels(gathered_labels(labels, group.drop_last()), group[0], group.last())
    }
}

/// Labels once the indices of each of some groups are joined.
pub open spec fn labels_of(width: nat, groups: Seq<Seq<usize>>) -> Seq<usize>
    decreases groups.len(),
{
    if groups.len() == 0 {
        apart_labels(width)
    } else {
        gathered_labels(labels_of(width, groups.drop_last()), groups.last())
    }
}

/// The indices below a limit that go by a label, ascending.
pub open spec fn labelled(labels: Seq<usize>, limit: nat, label: usize) -> Seq<usize>
    decreases limit,
{
    if limit == 0 {
        Seq::empty()
    } else {
        let before = labelled(labels, (limit - 1) as nat, label);
        if labels[limit - 1] == label {
            before.push((limit - 1) as usize)
        } else {
            before
        }
    }
}

/// The indices below a limit that are labels of themselves, ascending.
pub open spec fn heads(labels: Seq<usize>, limit: nat) -> Seq<usize>
    decreases limit,
{
    if limit == 0 {
        Seq::empty()
    } else {
        let before = heads(labels, (limit - 1) as nat);
        if labels[limit - 1] == limit - 1 {
            before.push((limit - 1) as usize)
        } else {
            before
        }
    }
}

/// The indices below a limit, those that go by one label together, in ascending order of the label.
pub open spec fn parts_below(labels: Seq<usize>, limit: nat) -> Seq<Seq<usize>> {
    heads(labels, limit).map_values(|head: usize| labelled(labels, limit, head))
}

/// The parts some groups of indices coarsen into.
pub open spec fn coarsened_parts(width: nat, groups: Seq<Seq<usize>>) -> Seq<Seq<usize>> {
    parts_below(labels_of(width, groups), width)
}

/// Whether every index is labelled by one no higher, which is its own label.
pub open spec fn proper_labels(labels: Seq<usize>) -> bool {
    &&& labels.len() <= usize::MAX
    &&& forall|i: int|
        0 <= i < labels.len() ==> (#[trigger] labels[i]) <= i && labels[labels[i] as int]
            == labels[i]
}

/// Whether the indices of every group are below a width.
pub open spec fn groups_below(width: nat, groups: Seq<Seq<usize>>) -> bool {
    forall|g: int, k: int|
        0 <= g < groups.len() && 0 <= k < groups[g].len() ==> (#[trigger] groups[g][k]) < width
}

proof fn lemma_joined(labels: Seq<usize>, one: usize, other: usize)
    requires
        proper_labels(labels),
        one < labels.len(),
        other < labels.len(),
    ensures
        proper_labels(joined_labels(labels, one, other)),
        joined_labels(labels, one, other).len() == labels.len(),
        joined_labels(labels, one, other)[one as int] == joined_labels(labels, one, other)[other as int],
        forall|i: int, j: int|
            #![trigger labels[i], labels[j]]
            0 <= i < labels.len() && 0 <= j < labels.len() && labels[i] == labels[j]
                ==> joined_labels(labels, one, other)[i] == joined_labels(labels, one, other)[j],
{
    let after = joined_labels(labels, one, other);
    assert(labels[one as int] <= one);
    assert(labels[other as int] <= other);
    assert forall|i: int| 0 <= i < after.len() implies (#[trigger] after[i]) <= i
        && after[after[i] as int] == after[i] by {
        assert(labels[i] <= i);
        assert(labels[labels[i] as int] == labels[i]);
    }
}

proof fn lemma_gathered(labels: Seq<usize>, group: Seq<usize>)
    requires
        proper_labels(labels),
        forall|k: int| 0 <= k < group.len() ==> (#[trigger] group[k]) < labels.len(),
    ensures
        proper_labels(gathered_labels(labels, group)),
        gathered_labels(labels, group).len() == labels.len(),
        forall|i: int, j: int|
            #![trigger labels[i], labels[j]]
            0 <= i < labels.len() && 0 <= j < labels.len() && labels[i] == labels[j]
                ==> gathered_labels(labels, group)[i] == gathered_labels(labels, group)[j],
        forall|a: int, b: int|
            #![trigger group[a], group[b]]
            0 <= a < group.len() && 0 <= b < group.len() ==> gathered_labels(
                labels,
                group,
            )[group[a] as int] == gathered_labels(labels, group)[group[b] as int],
    decreases group.len(),
{
    if group.len() > 1 {
        let front = group.drop_last();
        lemma_gathered(labels, front);
        let before = gathered_labels(labels, front);
        let after = gathered_labels(labels, group);
        assert(group.last() == group[group.len() - 1]);
        lemma_joined(before, group[0], group.last());
        assert forall|i: int, j: int|
            #![trigger labels[i], labels[j]]
            0 <= i < labels.len() && 0 <= j < labels.len() && labels[i] == labels[j] implies after[i]
            == after[j] by {
            assert(before[i] == before[j]);
        }
        assert forall|a: int| 0 <= a < group.len() implies after[(#[trigger] group[a]) as int]
            == after[group[0] as int] by {
            if a < front.len() {
                assert(front[a] == group[a]);
                assert(front[0] == group[0]);
                assert(before[front[a] as int] == before[front[0] as int]);
            }
        }
    }
}

/// Every index is labelled by the lowest index it is joined with, and the indices of one group share a label.
pub proof fn lemma_groups_share_a_label(width: nat, groups: Seq<Seq<usize>>)
    requires
        width <= usize::MAX,
        groups_below(width, groups),
    ensures
        proper_labels(labels_of(width, groups)),
        labels_of(width, groups).len() == width,
        forall|g: int, a: int, b: int|
            0 <= g < groups.len() && 0 <= a < groups[g].len() && 0 <= b < groups[g].len()
                ==> labels_of(width, groups)[(#[trigger] groups[g][a]) as int] == labels_of(
                width,
                groups,
            )[(#[trigger] groups[g][b]) as int],
    decreases groups.len(),
{
    if groups.len() > 0 {
        let front = groups.drop_last();
        let group = groups.last();
        let last = groups.len() - 1;
        assert(groups[last] == group);
        assert forall|g: int, k: int| 0 <= g < front.len() && 0 <= k < front[g].len() implies (
        #[trigger] front[g][k]) < width by {
            assert(groups[g][k] == front[g][k]);
        }
        lemma_groups_share_a_label(width, front);
        let before = labels_of(width, front);
        let after = labels_of(width, groups);
        assert forall|k: int| 0 <= k < group.len() implies (#[trigger] group[k]) < before.len() by {
            assert(groups[last][k] == group[k]);
        }
        lemma_gathered(before, group);
        assert forall|g: int, a: int, b: int|
            0 <= g < groups.len() && 0 <= a < groups[g].len() && 0 <= b < groups[g].len() implies after[(
        #[trigger] groups[g][a]) as int] == after[(#[trigger] groups[g][b]) as int] by {
            if g < last {
                assert(front[g] == groups[g]);
                assert(front[g][a] < width && front[g][b] < width);
                assert(before[front[g][a] as int] == before[front[g][b] as int]);
            } else {
                assert(group[a] == groups[g][a]);
                assert(group[b] == groups[g][b]);
            }
        }
    }
}

/// Nothing is joined but what overlaps: a property the indices of every group agree on is one that indices with
/// one label agree on.
pub proof fn lemma_labels_join_no_more(
    width: nat,
    groups: Seq<Seq<usize>>,
    property: spec_fn(usize) -> int,
    i: int,
    j: int,
)
    requires
        width <= usize::MAX,
        groups_below(width, groups),
        forall|g: int, a: int, b: int|
            0 <= g < groups.len() && 0 <= a < groups[g].len() && 0 <= b < groups[g].len()
                ==> property(#[trigger] groups[g][a]) == property(#[trigger] groups[g][b]),
        0 <= i < width,
        0 <= j < width,
        labels_of(width, groups)[i] == labels_of(width, groups)[j],
    ensures
        property(i as usize) == property(j as usize),
{
    lemma_label_agrees(width, groups, property, i);
    lemma_label_agrees(width, groups, property, j);
}

proof fn lemma_label_agrees(
    width: nat,
    groups: Seq<Seq<usize>>,
    property: spec_fn(usize) -> int,
    i: int,
)
    requires
        width <= usize::MAX,
        groups_below(width, groups),
        forall|g: int, a: int, b: int|
            0 <= g < groups.len() && 0 <= a < groups[g].len() && 0 <= b < groups[g].len()
                ==> property(#[trigger] groups[g][a]) == property(#[trigger] groups[g][b]),
        0 <= i < width,
    ensures
        property(labels_of(width, groups)[i]) == property(i as usize),
    decreases groups.len(),
{
    if groups.len() > 0 {
        let front = groups.drop_last();
        let group = groups.last();
        let last = groups.len() - 1;
        assert(groups[last] == group);
        assert forall|g: int, k: int| 0 <= g < front.len() && 0 <= k < front[g].len() implies (
        #[trigger] front[g][k]) < width by {
            assert(groups[g][k] == front[g][k]);
        }
        assert forall|g: int, a: int, b: int|
            0 <= g < front.len() && 0 <= a < front[g].len() && 0 <= b < front[g].len() implies property(
            #[trigger] front[g][a],
        ) == property(#[trigger] front[g][b]) by {
            assert(groups[g][a] == front[g][a]);
            assert(groups[g][b] == front[g][b]);
        }
        lemma_groups_share_a_label(width, front);
        let before = labels_of(width, front);
        assert forall|k: int| 0 <= k < width implies property(#[trigger] before[k]) == property(
            k as usize,
        ) by {
            lemma_label_agrees(width, front, property, k);
        }
        assert forall|k: int| 0 <= k < group.len() implies (#[trigger] group[k]) < width by {
            assert(groups[last][k] == group[k]);
        }
        assert forall|a: int, b: int| 0 <= a < group.len() && 0 <= b < group.len() implies property(
            #[trigger] group[a],
        ) == property(#[trigger] group[b]) by {
            assert(groups[last][a] == group[a]);
            assert(groups[last][b] == group[b]);
        }
        lemma_gathered_agrees(before, group, property, i);
    }
}

proof fn lemma_gathered_agrees(
    labels: Seq<usize>,
    group: Seq<usize>,
    property: spec_fn(usize) -> int,
    i: int,
)
    requires
        proper_labels(labels),
        forall|k: int| 0 <= k < group.len() ==> (#[trigger] group[k]) < labels.len(),
        forall|a: int, b: int|
            0 <= a < group.len() && 0 <= b < group.len() ==> property(#[trigger] group[a])
                == property(#[trigger] group[b]),
        forall|k: int| 0 <= k < labels.len() ==> property(#[trigger] labels[k]) == property(k as usize),
        0 <= i < labels.len(),
    ensures
        property(gathered_labels(labels, group)[i]) == property(i as usize),
    decreases group.len(),
{
    if group.len() > 1 {
        let front = group.drop_last();
        assert forall|a: int, b: int| 0 <= a < front.len() && 0 <= b < front.len() implies property(
            #[trigger] front[a],
        ) == property(#[trigger] front[b]) by {
            assert(group[a] == front[a]);
            assert(group[b] == front[b]);
        }
        lemma_gathered(labels, front);
        lemma_gathered_agrees(labels, front, property, i);
        lemma_gathered_agrees(labels, front, property, group[0] as int);
        assert(group.last() == group[group.len() - 1]);
        lemma_gathered_agrees(labels, front, property, group.last() as int);
        let before = gathered_labels(labels, front);
        assert(property(group[0]) == property(group.last()));
        assert(property(before[i]) == property(i as usize));
    }
}

proof fn lemma_labelled(labels: Seq<usize>, limit: nat, label: usize)
    requires
        proper_labels(labels),
        limit <= labels.len(),
    ensures
        forall|k: int|
            0 <= k < labelled(labels, limit, label).len() ==> (#[trigger] labelled(
                labels,
                limit,
                label,
            )[k]) < limit && labels[labelled(labels, limit, label)[k] as int] == label,
        forall|k: int, l: int|
            0 <= k < l < labelled(labels, limit, label).len() ==> (#[trigger] labelled(
                labels,
                limit,
                label,
            )[k]) < (#[trigger] labelled(labels, limit, label)[l]),
        label < limit && labels[label as int] == label ==> labelled(labels, limit, label).len() > 0,
        limit <= label ==> labelled(labels, limit, label).len() == 0,
    decreases limit,
{
    if limit > 0 {
        let before = labelled(labels, (limit - 1) as nat, label);
        let after = labelled(labels, limit, label);
        lemma_labelled(labels, (limit - 1) as nat, label);
        assert(labels[limit - 1] <= limit - 1);
        assert forall|k: int| 0 <= k < before.len() implies #[trigger] after[k] == before[k] && before[k]
            < limit - 1 by {}
        assert(after != before ==> after[before.len() as int] == limit - 1);
    }
}

proof fn lemma_heads(labels: Seq<usize>, limit: nat)
    requires
        proper_labels(labels),
        limit <= labels.len(),
    ensures
        forall|k: int|
            0 <= k < heads(labels, limit).len() ==> (#[trigger] heads(labels, limit)[k]) < limit
                && labels[heads(labels, limit)[k] as int] == heads(labels, limit)[k],
        forall|k: int, l: int|
            0 <= k < l < heads(labels, limit).len() ==> (#[trigger] heads(labels, limit)[k]) < (
            #[trigger] heads(labels, limit)[l]),
        forall|i: int|
            0 <= i < limit ==> heads(labels, limit).contains(#[trigger] labels[i]),
    decreases limit,
{
    if limit > 0 {
        let before = heads(labels, (limit - 1) as nat);
        let after = heads(labels, limit);
        lemma_heads(labels, (limit - 1) as nat);
        assert forall|i: int| 0 <= i < limit implies after.contains(#[trigger] labels[i]) by {
            let label = labels[i];
            assert(label <= i);
            if i == limit - 1 && label == i {
                assert(after[before.len() as int] == label);
            } else {
                if i == limit - 1 {
                    assert(labels[label as int] == label);
                }
                assert(before.contains(label));
                let k = before.index_of(label);
                assert(before[k] == label);
                assert(after[k] == label);
            }
        }
    }
}

proof fn lemma_labelled_all(labels: Seq<usize>, limit: nat, label: usize, index: usize)
    requires
        index < limit <= labels.len(),
        labels[index as int] == label,
    ensures
        labelled(labels, limit, label).contains(index),
    decreases limit,
{
    let before = labelled(labels, (limit - 1) as nat, label);
    let after = labelled(labels, limit, label);
    if index == limit - 1 {
        assert(after[before.len() as int] == index);
    } else {
        lemma_labelled_all(labels, (limit - 1) as nat, label, index);
        assert(after[before.index_of(index)] == index);
    }
}

/// The parts come in ascending order of their lowest index, and so do the indices in each.
pub proof fn lemma_coarsened_parts_ascend(width: nat, groups: Seq<Seq<usize>>)
    requires
        width <= usize::MAX,
        groups_below(width, groups),
    ensures
        forall|p: int|
            0 <= p < coarsened_parts(width, groups).len() ==> ascends(
                #[trigger] coarsened_parts(width, groups)[p],
            ),
        forall|p: int, q: int|
            0 <= p < q < coarsened_parts(width, groups).len() ==> (#[trigger] coarsened_parts(
                width,
                groups,
            )[p])[0] < (#[trigger] coarsened_parts(width, groups)[q])[0],
{
    lemma_groups_share_a_label(width, groups);
    let labels = labels_of(width, groups);
    let parts = coarsened_parts(width, groups);
    let known = heads(labels, width);
    lemma_heads(labels, width);
    assert forall|p: int| 0 <= p < parts.len() implies ascends(#[trigger] parts[p]) && parts[p][0]
        == known[p] by {
        let head = known[p];
        let part = labelled(labels, width, head);
        assert(parts[p] == part);
        lemma_labelled(labels, width, head);
        lemma_labelled_all(labels, width, head, head);
        let k = part.index_of(head);
        assert(part[k] == head);
        assert(labels[part[0] as int] == head);
        assert(labels[part[0] as int] <= part[0]);
        if k > 0 {
            assert(part[0] < part[k]);
        }
    }
}

/// Whether some group holds both of two indices.
pub open spec fn together(groups: Seq<Seq<usize>>, one: usize, other: usize) -> bool {
    exists|g: int|
        0 <= g < groups.len() && (#[trigger] groups[g]).contains(one) && groups[g].contains(other)
}

/// Whether a list of indices is a chain: each stands in a group with the next.
pub open spec fn is_chain(groups: Seq<Seq<usize>>, chain: Seq<usize>) -> bool {
    &&& chain.len() > 0
    &&& forall|k: int| 0 <= k < chain.len() - 1 ==> together(groups, #[trigger] chain[k], chain[k + 1])
}

/// Whether a chain of overlapping groups leads from one index to another.
pub open spec fn chained(groups: Seq<Seq<usize>>, one: usize, other: usize) -> bool {
    exists|chain: Seq<usize>| #[trigger]
        is_chain(groups, chain) && chain[0] == one && chain.last() == other
}

/// Whether two indices are in one part.
pub open spec fn share_a_part(parts: Seq<Seq<usize>>, one: usize, other: usize) -> bool {
    exists|p: int|
        0 <= p < parts.len() && (#[trigger] parts[p]).contains(one) && parts[p].contains(other)
}

proof fn lemma_chain_one_more(
    groups: Seq<Seq<usize>>,
    start: usize,
    one: usize,
    other: usize,
)
    requires
        chained(groups, start, one),
        together(groups, one, other),
    ensures
        chained(groups, start, other),
{
    let chain = choose|chain: Seq<usize>| #[trigger]
        is_chain(groups, chain) && chain[0] == start && chain.last() == one;
    let longer = chain.push(other);
    assert forall|k: int| 0 <= k < longer.len() - 1 implies together(
        groups,
        #[trigger] longer[k],
        longer[k + 1],
    ) by {
        if k < chain.len() - 1 {
            assert(together(groups, chain[k], chain[k + 1]));
        }
    }
    assert(is_chain(groups, longer));
    assert(longer[0] == start && longer.last() == other);
}

proof fn lemma_chain_shares_a_label(
    width: nat,
    groups: Seq<Seq<usize>>,
    chain: Seq<usize>,
    k: int,
)
    requires
        width <= usize::MAX,
        groups_below(width, groups),
        is_chain(groups, chain),
        0 <= k < chain.len(),
    ensures
        labels_of(width, groups)[chain[k] as int] == labels_of(width, groups)[chain[0] as int],
    decreases k,
{
    if k > 0 {
        lemma_chain_shares_a_label(width, groups, chain, k - 1);
        lemma_groups_share_a_label(width, groups);
        assert(together(groups, chain[k - 1], chain[k - 1 + 1]));
        let g = choose|g: int|
            0 <= g < groups.len() && (#[trigger] groups[g]).contains(chain[k - 1])
                && groups[g].contains(chain[k]);
        let a = groups[g].index_of(chain[k - 1]);
        let b = groups[g].index_of(chain[k]);
        assert(groups[g][a] == chain[k - 1] && groups[g][b] == chain[k]);
    }
}

/// Two indices share a part exactly when they are one, or a chain of groups leads from one to the other, each group
/// sharing an index with the next.
pub proof fn lemma_parts_are_chains(
    width: nat,
    groups: Seq<Seq<usize>>,
    one: usize,
    other: usize,
)
    requires
        width <= usize::MAX,
        groups_below(width, groups),
        one < width,
        other < width,
    ensures
        share_a_part(coarsened_parts(width, groups), one, other) <==> chained(groups, one, other),
{
    lemma_groups_share_a_label(width, groups);
    let labels = labels_of(width, groups);
    let parts = coarsened_parts(width, groups);
    let known = heads(labels, width);
    lemma_heads(labels, width);
    if share_a_part(parts, one, other) {
        let p = choose|p: int|
            0 <= p < parts.len() && (#[trigger] parts[p]).contains(one) && parts[p].contains(other);
        let part = labelled(labels, width, known[p]);
        assert(parts[p] == part);
        lemma_labelled(labels, width, known[p]);
        assert(part[part.index_of(one)] == one && part[part.index_of(other)] == other);
        assert(labels[one as int] == labels[other as int]);
        let property = |index: usize|
            if chained(groups, one, index) {
                1int
            } else {
                0int
            };
        assert forall|g: int, a: int, b: int|
            0 <= g < groups.len() && 0 <= a < groups[g].len() && 0 <= b < groups[g].len() implies property(
            #[trigger] groups[g][a],
        ) == property(#[trigger] groups[g][b]) by {
            let x = groups[g][a];
            let y = groups[g][b];
            assert(groups[g].contains(x) && groups[g].contains(y));
            assert(together(groups, x, y) && together(groups, y, x));
            if chained(groups, one, x) {
                lemma_chain_one_more(groups, one, x, y);
            }
            if chained(groups, one, y) {
                lemma_chain_one_more(groups, one, y, x);
            }
        }
        lemma_labels_join_no_more(width, groups, property, one as int, other as int);
        let alone = seq![one];
        assert(is_chain(groups, alone));
        assert(alone[0] == one && alone.last() == one);
        assert(property(one) == 1);
    }
    if chained(groups, one, other) {
        let chain = choose|chain: Seq<usize>| #[trigger]
            is_chain(groups, chain) && chain[0] == one && chain.last() == other;
        lemma_chain_shares_a_label(width, groups, chain, chain.len() - 1);
        let label = labels[one as int];
        assert(known.contains(label));
        let p = known.index_of(label);
        lemma_labelled_all(labels, width, label, one);
        lemma_labelled_all(labels, width, label, other);
        assert(parts[p] == labelled(labels, width, label));
    }
}

/// Whether each group of one list holds the indices of some group of another.
pub open spec fn among(groups: Seq<Seq<usize>>, others: Seq<Seq<usize>>) -> bool {
    forall|g: int|
        0 <= g < groups.len() ==> exists|h: int|
            0 <= h < others.len() && (#[trigger] others[h]).to_set() == (
            #[trigger] groups[g]).to_set()
}

proof fn lemma_labels_follow(
    width: nat,
    groups: Seq<Seq<usize>>,
    others: Seq<Seq<usize>>,
    i: int,
    j: int,
)
    requires
        width <= usize::MAX,
        groups_below(width, groups),
        groups_below(width, others),
        among(groups, others),
        0 <= i < width,
        0 <= j < width,
        labels_of(width, groups)[i] == labels_of(width, groups)[j],
    ensures
        labels_of(width, others)[i] == labels_of(width, others)[j],
{
    lemma_groups_share_a_label(width, others);
    let labels = labels_of(width, others);
    let property = |index: usize| labels[index as int] as int;
    assert forall|g: int, a: int, b: int|
        0 <= g < groups.len() && 0 <= a < groups[g].len() && 0 <= b < groups[g].len() implies property(
        #[trigger] groups[g][a],
    ) == property(#[trigger] groups[g][b]) by {
        let h = choose|h: int|
            0 <= h < others.len() && (#[trigger] others[h]).to_set() == groups[g].to_set();
        assert(groups[g].to_set().contains(groups[g][a]));
        assert(groups[g].to_set().contains(groups[g][b]));
        assert(others[h].contains(groups[g][a]) && others[h].contains(groups[g][b]));
        let c = others[h].index_of(groups[g][a]);
        let d = others[h].index_of(groups[g][b]);
        assert(others[h][c] == groups[g][a] && others[h][d] == groups[g][b]);
    }
    lemma_labels_join_no_more(width, groups, property, i, j);
}

/// What groups coarsen into does not depend on the order of the groups, nor on the order of the indices in one.
pub proof fn lemma_coarsening_ignores_order(
    width: nat,
    groups: Seq<Seq<usize>>,
    others: Seq<Seq<usize>>,
)
    requires
        width <= usize::MAX,
        groups_below(width, groups),
        groups_below(width, others),
        among(groups, others),
        among(others, groups),
    ensures
        coarsened_parts(width, groups) == coarsened_parts(width, others),
{
    lemma_groups_share_a_label(width, groups);
    lemma_groups_share_a_label(width, others);
    let one = labels_of(width, groups);
    let other = labels_of(width, others);
    assert forall|i: int| 0 <= i < width implies one[i] == other[i] by {
        // Each label is the lowest index of those that share it.
        let first = one[i] as int;
        let second = other[i] as int;
        assert(one[first] == one[i] && other[second] == other[i]);
        lemma_labels_follow(width, groups, others, first, i);
        lemma_labels_follow(width, others, groups, second, i);
        assert(other[first] <= first && one[second] <= second);
    }
    assert(one =~= other);
}

proof fn lemma_total_update(parts: Seq<Seq<usize>>, p: int, part: Seq<usize>)
    requires
        0 <= p < parts.len(),
    ensures
        total(parts.update(p, part)) + parts[p].len() == total(parts) + part.len(),
    decreases parts.len(),
{
    let after = parts.update(p, part);
    if p == parts.len() - 1 {
        assert(after.drop_last() =~= parts.drop_last());
    } else {
        lemma_total_update(parts.drop_last(), p, part);
        assert(after.drop_last() =~= parts.drop_last().update(p, part));
        assert(after.last() == parts.last());
        assert(parts.drop_last()[p] == parts[p]);
    }
}

/// One more index joins the part of its label, or opens one.
proof fn lemma_parts_step(labels: Seq<usize>, limit: nat)
    requires
        proper_labels(labels),
        limit < labels.len(),
    ensures
        ({
            let label = labels[limit as int];
            let before = parts_below(labels, limit);
            let after = parts_below(labels, limit + 1);
            let p = heads(labels, limit).index_of(label);
            if label == limit {
                after == before.push(seq![label])
            } else {
                &&& heads(labels, limit).contains(label)
                &&& 0 <= p < before.len()
                &&& heads(labels, limit)[p] == label
                &&& after == before.update(p, before[p].push(limit as usize))
            }
        }),
{
    let label = labels[limit as int];
    let before = parts_below(labels, limit);
    let after = parts_below(labels, limit + 1);
    let known = heads(labels, limit);
    lemma_heads(labels, limit);
    lemma_labelled(labels, limit, label);
    assert(label <= limit);
    if label == limit {
        assert(labelled(labels, limit + 1, label) =~= seq![label]);
        assert forall|k: int| 0 <= k < before.len() implies #[trigger] after[k] == before[k] by {
            assert(known[k] != label);
        }
        assert(after =~= before.push(seq![label]));
    } else {
        assert(labels[label as int] == label);
        assert(known.contains(labels[label as int]));
        let p = known.index_of(label);
        assert(known[p] == label);
        assert forall|k: int| 0 <= k < before.len() && k != p implies #[trigger] after[k]
            == before[k] by {
            assert(known[k] != known[p]) by {
                if k < p {
                    assert(known[k] < known[p]);
                } else {
                    assert(known[p] < known[k]);
                }
            }
        }
        assert(after =~= before.update(p, before[p].push(limit as usize)));
    }
}

proof fn lemma_parts_total(labels: Seq<usize>, limit: nat)
    requires
        proper_labels(labels),
        limit <= labels.len(),
    ensures
        total(parts_below(labels, limit)) == limit,
    decreases limit,
{
    if limit == 0 {
        assert(parts_below(labels, 0) =~= Seq::<Seq<usize>>::empty());
    } else {
        let less = (limit - 1) as nat;
        lemma_parts_total(labels, less);
        lemma_parts_step(labels, less);
        let before = parts_below(labels, less);
        let label = labels[less as int];
        if label == less {
            assert(before.push(seq![label]).drop_last() =~= before);
        } else {
            let p = heads(labels, less).index_of(label);
            lemma_total_update(before, p, before[p].push(less as usize));
        }
    }
}

/// What groups of indices coarsen into is a partition of all the indices.
pub proof fn lemma_coarsening_is_a_partition(width: nat, groups: Seq<Seq<usize>>)
    requires
        width <= usize::MAX,
        groups_below(width, groups),
    ensures
        is_partition(coarsened_parts(width, groups)),
        total(coarsened_parts(width, groups)) == width,
{
    lemma_groups_share_a_label(width, groups);
    lemma_parts_partition(labels_of(width, groups));
}

proof fn lemma_parts_partition(labels: Seq<usize>)
    requires
        proper_labels(labels),
    ensures
        is_partition(parts_below(labels, labels.len())),
        total(parts_below(labels, labels.len())) == labels.len(),
{
    let width = labels.len();
    let parts = parts_below(labels, width);
    let known = heads(labels, width);
    lemma_heads(labels, width);
    lemma_parts_total(labels, width);
    assert forall|p: int| 0 <= p < parts.len() implies (#[trigger] parts[p]).len() > 0 && (forall|
        i: int,
    |
        0 <= i < parts[p].len() ==> (#[trigger] parts[p][i]) < width && labels[parts[p][i] as int]
            == known[p]) by {
        lemma_labelled(labels, width, known[p]);
        assert(parts[p] == labelled(labels, width, known[p]));
    }
    assert forall|p: int, i: int, q: int, j: int|
        0 <= p < parts.len() && 0 <= i < parts[p].len() && 0 <= q < parts.len() && 0 <= j
            < parts[q].len() && #[trigger] parts[p][i] == #[trigger] parts[q][j] implies p == q && i
        == j by {
        assert(parts[p].len() > 0 && parts[q].len() > 0);
        assert(known[p] == known[q]);
        if p < q {
            assert(known[p] < known[q]);
        } else if q < p {
            assert(known[q] < known[p]);
        }
        lemma_labelled(labels, width, known[p]);
        if i < j {
            assert(parts[p][i] < parts[p][j]);
        } else if j < i {
            assert(parts[p][j] < parts[p][i]);
        }
    }
}

// --- Union-find over the indices, each set rooted at its lowest ------------------------------------

/// Whether every index points at itself or at a lower one.
spec fn points_down(root: Seq<usize>) -> bool {
    &&& root.len() <= usize::MAX
    &&& forall|i: int| 0 <= i < root.len() ==> (#[trigger] root[i]) <= i
}

/// Where following the pointers from an index leads.
spec fn top(root: Seq<usize>, index: int) -> int
    decreases index,
{
    if 0 <= index < root.len() && root[index] < index {
        top(root, root[index] as int)
    } else {
        index
    }
}

/// Whether the pointers lead every index to its label.
spec fn leads_to(root: Seq<usize>, labels: Seq<usize>) -> bool {
    &&& points_down(root)
    &&& labels.len() == root.len()
    &&& forall|i: int| 0 <= i < root.len() ==> top(root, i) == #[trigger] labels[i]
}

proof fn lemma_top(root: Seq<usize>, index: int)
    requires
        points_down(root),
        0 <= index < root.len(),
    ensures
        0 <= top(root, index) <= index,
        root[top(root, index)] == top(root, index),
    decreases index,
{
    if root[index] < index {
        lemma_top(root, root[index] as int);
    }
}

/// Pointing an index at where its pointer points leads nowhere else.
proof fn lemma_halved(root: Seq<usize>, at: int, index: int)
    requires
        points_down(root),
        0 <= at < root.len(),
        0 <= index < root.len(),
    ensures
        points_down(root.update(at, root[root[at] as int])),
        top(root.update(at, root[root[at] as int]), index) == top(root, index),
    decreases index,
{
    let after = root.update(at, root[root[at] as int]);
    assert(root[at] <= at);
    assert(root[root[at] as int] <= root[at]);
    assert forall|i: int| 0 <= i < after.len() implies (#[trigger] after[i]) <= i by {
        assert(root[i] <= i);
    }
    if root[index] < index {
        lemma_halved(root, at, root[index] as int);
        if index == at {
            let next = root[at] as int;
            if root[next] < next {
                lemma_halved(root, at, root[next] as int);
            }
        }
    }
}

/// Pointing one root at a lower one leads there whatever led to it.
proof fn lemma_linked(root: Seq<usize>, high: int, low: usize, index: int)
    requires
        points_down(root),
        0 <= high < root.len(),
        root[high] == high,
        low < high,
        root[low as int] == low,
        0 <= index < root.len(),
    ensures
        points_down(root.update(high, low)),
        top(root.update(high, low), index) == (if top(root, index) == high {
            low as int
        } else {
            top(root, index)
        }),
    decreases index,
{
    let after = root.update(high, low);
    assert forall|i: int| 0 <= i < after.len() implies (#[trigger] after[i]) <= i by {
        assert(root[i] <= i);
    }
    if root[index] < index {
        lemma_linked(root, high, low, root[index] as int);
    } else if index == high {
        assert(top(after, low as int) == low);
    }
}

/// The root of an index's set, shortening the way to it for next time.
fn find(root: &mut Vec<usize>, start: usize, Ghost(labels): Ghost<Seq<usize>>) -> (found: usize)
    requires
        leads_to(old(root)@, labels),
        start < old(root)@.len(),
    ensures
        leads_to(final(root)@, labels),
        found == labels[start as int],
        found < final(root)@.len(),
        final(root)@[found as int] == found,
{
    let mut index = start;
    proof {
        assert(top(root@, start as int) == labels[start as int]);
    }
    while root[index] != index
        invariant
            leads_to(root@, labels),
            start < root@.len(),
            index < root@.len(),
            top(root@, index as int) == labels[start as int],
        decreases index,
    {
        let ghost before = root@;
        proof {
            assert(before[index as int] <= index);
            assert(before[before[index as int] as int] <= before[index as int]);
        }
        let next = root[root[index]];
        root.set(index, next);
        proof {
            assert(root@ == before.update(index as int, before[before[index as int] as int]));
            assert forall|i: int| 0 <= i < root@.len() implies top(root@, i) == #[trigger] labels[i] by {
                lemma_halved(before, index as int, i);
            }
            lemma_halved(before, index as int, index as int);
        }
        index = next;
    }
    index
}

/// The parts some groups of indices coarsen into, overlapping groups joined.
pub fn coarsened(width: usize, groups: &Vec<Vec<usize>>) -> (partition: Partition)
    requires
        groups_below(width as nat, nested(groups@)),
    ensures
        partition@ == coarsened_parts(width as nat, nested(groups@)),
{
    let ghost said = nested(groups@);
    let mut root: Vec<usize> = Vec::new();
    let mut i: usize = 0;
    while i < width
        invariant
            i <= width,
            root@ == apart_labels(i as nat),
        decreases width - i,
    {
        root.push(i);
        assert(root@ =~= apart_labels((i + 1) as nat));
        i += 1;
    }
    assert(said.take(0) =~= Seq::<Seq<usize>>::empty());
    assert(leads_to(root@, labels_of(width as nat, said.take(0))));
    let mut g: usize = 0;
    while g < groups.len()
        invariant
            g <= groups.len(),
            said == nested(groups@),
            groups_below(width as nat, said),
            root@.len() == width,
            leads_to(root@, labels_of(width as nat, said.take(g as int))),
        decreases groups.len() - g,
    {
        let group = &groups[g];
        let ghost members = said[g as int];
        let ghost start = labels_of(width as nat, said.take(g as int));
        proof {
            assert(members == group@);
            assert(said.take(g + 1).drop_last() =~= said.take(g as int));
            assert(said.take(g + 1).last() == members);
            assert forall|k: int| 0 <= k < members.len() implies (#[trigger] members[k]) < width by {
                assert(said[g as int][k] == members[k]);
            }
        }
        if group.len() > 0 {
            assert(members.take(1).len() == 1);
            let mut k: usize = 1;
            while k < group.len()
                invariant
                    1 <= k <= group.len(),
                    members == group@,
                    forall|j: int| 0 <= j < members.len() ==> (#[trigger] members[j]) < width,
                    root@.len() == width,
                    leads_to(root@, gathered_labels(start, members.take(k as int))),
                decreases group.len() - k,
            {
                let ghost labels = gathered_labels(start, members.take(k as int));
                proof {
                    assert(members.take(k + 1).drop_last() =~= members.take(k as int));
                    assert(members.take(k + 1).last() == members[k as int]);
                    assert(members.take(k + 1)[0] == members[0]);
                    assert(members[0] < width && members[k as int] < width);
                }
                let left = find(&mut root, group[0], Ghost(labels));
                let right = find(&mut root, group[k], Ghost(labels));
                let ghost before = root@;
                let (low, high) = if left <= right {
                    (left, right)
                } else {
                    (right, left)
                };
                proof {
                    lemma_top(before, members[0] as int);
                    lemma_top(before, members[k as int] as int);
                    assert(top(before, members[0] as int) == labels[members[0] as int]);
                    assert(top(before, members[k as int] as int) == labels[members[k as int] as int]);
                }
                root.set(high, low);
                proof {
                    let after = joined_labels(labels, members[0], members[k as int]);
                    assert forall|i: int| 0 <= i < root@.len() implies top(root@, i)
                        == #[trigger] after[i] by {
                        assert(top(before, i) == labels[i]);
                        if low < high {
                            lemma_linked(before, high as int, low, i);
                        } else {
                            assert(root@ =~= before);
                        }
                    }
                    if low < high {
                        lemma_linked(before, high as int, low, 0);
                    } else {
                        assert(root@ =~= before);
                    }
                    assert(leads_to(root@, after));
                }
                k += 1;
            }
            assert(members.take(k as int) =~= members);
        }
        g += 1;
    }
    assert(said.take(g as int) =~= said);
    let ghost labels = labels_of(width as nat, said);
    proof {
        lemma_groups_share_a_label(width as nat, said);
    }
    collect_parts(root, Ghost(labels))
}

/// The indices of each set together, the sets in ascending order of their roots.
fn collect_parts(root: Vec<usize>, Ghost(labels): Ghost<Seq<usize>>) -> (partition: Partition)
    requires
        leads_to(root@, labels),
        proper_labels(labels),
    ensures
        partition@ == parts_below(labels, labels.len()),
{
    let mut root = root;
    let width: usize = root.len();
    let mut part_of = IndexMap::new();
    let mut parts: Vec<Vec<usize>> = Vec::new();
    let mut index: usize = 0;
    assert(nested(parts@) =~= parts_below(labels, 0));
    while index < width
        invariant
            index <= width,
            width == labels.len(),
            root@.len() == width,
            leads_to(root@, labels),
            proper_labels(labels),
            nested(parts@) == parts_below(labels, index as nat),
            forall|head: usize| #[trigger]
                part_of@.contains_key(head) <==> heads(labels, index as nat).contains(head),
            forall|head: usize| #[trigger]
                part_of@.contains_key(head) ==> part_of@[head] == heads(
                    labels,
                    index as nat,
                ).index_of(head),
        decreases width - index,
    {
        let set = find(&mut root, index, Ghost(labels));
        let ghost before = parts_below(labels, index as nat);
        let ghost known = heads(labels, index as nat);
        proof {
            lemma_parts_step(labels, index as nat);
            lemma_heads(labels, index as nat);
            lemma_heads(labels, (index + 1) as nat);
            assert(nested(parts@).len() == parts@.len());
        }
        match part_of.get(set) {
            Some(part) => {
                proof {
                    assert(part_of@.contains_key(set));
                    assert(known.contains(set));
                    assert(set != index) by {
                        assert(known[known.index_of(set)] < index);
                    }
                    assert(before[part as int] == parts@[part as int]@);
                }
                let mut grown: Vec<usize> = Vec::new();
                let ghost list = parts@;
                std::mem::swap(&mut grown, &mut parts[part]);
                grown.push(index);
                std::mem::swap(&mut grown, &mut parts[part]);
                assert(nested(parts@) =~= before.update(
                    part as int,
                    before[part as int].push(index),
                ));
                assert(heads(labels, (index + 1) as nat) == known);
            },
            None => {
                proof {
                    assert(!part_of@.contains_key(set));
                    assert(!known.contains(set));
                    assert(set == index);
                }
                part_of.insert(set, parts.len());
                let mut part: Vec<usize> = Vec::new();
                part.push(index);
                parts.push(part);
                proof {
                    assert(nested(parts@) =~= before.push(seq![index]));
                    let more = heads(labels, (index + 1) as nat);
                    assert(more == known.push(index));
                    assert(more[known.len() as int] == index);
                    assert forall|head: usize| #[trigger] part_of@.contains_key(head) implies more.contains(
                        head,
                    ) && part_of@[head] == more.index_of(head) by {
                        if head != index {
                            let k = known.index_of(head);
                            assert(known[k] == head);
                            assert(more[k] == head);
                            lemma_one_place(more, k);
                        } else {
                            lemma_one_place(more, known.len() as int);
                        }
                    }
                    assert forall|head: usize| #[trigger] more.contains(head) implies part_of@.contains_key(
                        head,
                    ) by {
                        let k = more.index_of(head);
                        assert(more[k] == head);
                        if k < known.len() {
                            assert(known[k] == head);
                        }
                    }
                }
            },
        }
        index += 1;
    }
    proof {
        lemma_parts_partition(labels);
        lemma_scan_finds_partitions(nested(parts@));
    }
    match Partition::new(parts) {
        Ok(partition) => partition,
        Err(_) => {
            assert(false);
            Partition::singletons(0)
        },
    }
}

proof fn lemma_one_place(list: Seq<usize>, k: int)
    requires
        0 <= k < list.len(),
        forall|i: int, j: int|
            0 <= i < j < list.len() ==> (#[trigger] list[i]) < (#[trigger] list[j]),
    ensures
        list.index_of(list[k]) == k,
{
    let i = list.index_of(list[k]);
    assert(list.contains(list[k]));
    assert(list[i] == list[k]);
    if i < k {
        assert(list[i] < list[k]);
    } else if k < i {
        assert(list[k] < list[i]);
    }
}

} // verus!
