//! How an item's qubits group into jointly-sampled subsystems.

use vstd::prelude::*;
use vstd::string::*;

use crate::order::arranged;
use crate::order::lemma_arranging_loses_nothing;
use crate::order::permutes;
use crate::order::positions;
use crate::text;

verus! {

/// Why a partition could not be built.
#[derive(Debug, Clone, Copy, PartialEq, Eq, Structural)]
pub enum PartitionError {
    EmptyPart,
    IndexOutOfRange { index: usize, num_qubits: usize },
    DuplicateIndex(usize),
}

impl PartitionError {
    /// The message a caller is shown.
    pub open spec fn message_text(self) -> Seq<char> {
        match self {
            Self::EmptyPart => "a part must cover at least one qubit"@,
            Self::IndexOutOfRange { index, num_qubits } => "index "@ + text::decimal_text(
                index as nat,
            ) + " is out of range for a partition of "@ + text::decimal_text(num_qubits as nat)
                + " qubits"@,
            Self::DuplicateIndex(index) => "index "@ + text::decimal_text(index as nat)
                + " appears in more than one part"@,
        }
    }

    /// The message a caller is shown.
    pub fn message(&self) -> (message: String)
        ensures
            message@ == self.message_text(),
    {
        match self {
            Self::EmptyPart => String::from_str("a part must cover at least one qubit"),
            Self::IndexOutOfRange { index, num_qubits } => {
                let mut message = String::from_str("index ");
                message.append(text::decimal(*index).as_str());
                message.append(" is out of range for a partition of ");
                message.append(text::decimal(*num_qubits).as_str());
                message.append(" qubits");
                message
            },
            Self::DuplicateIndex(index) => {
                let mut message = String::from_str("index ");
                message.append(text::decimal(*index).as_str());
                message.append(" appears in more than one part");
                message
            },
        }
    }
}

/// The lists inside a list of vectors.
pub open spec fn nested<T>(lists: Seq<Vec<T>>) -> Seq<Seq<T>> {
    lists.map_values(|list: Vec<T>| list@)
}

/// How many entries the parts hold between them.
pub open spec fn total(parts: Seq<Seq<usize>>) -> nat
    decreases parts.len(),
{
    if parts.len() == 0 {
        0
    } else {
        total(parts.drop_last()) + parts.last().len()
    }
}

/// Whether the parts are a genuine partition of the integers below their total: no empty part, no
/// index at or beyond that total, and no index in two places.
pub open spec fn is_partition(parts: Seq<Seq<usize>>) -> bool {
    &&& forall|p: int| 0 <= p < parts.len() ==> (#[trigger] parts[p]).len() > 0
    &&& forall|p: int, i: int|
        0 <= p < parts.len() && 0 <= i < parts[p].len() ==> (#[trigger] parts[p][i]) < total(parts)
    &&& forall|p: int, i: int, q: int, j: int|
        0 <= p < parts.len() && 0 <= i < parts[p].len() && 0 <= q < parts.len() && 0 <= j
            < parts[q].len() && #[trigger] parts[p][i] == #[trigger] parts[q][j] ==> p == q && i
            == j
}

/// The parts with each index replaced by the item it points at.
pub open spec fn groups_of<T>(parts: Seq<Seq<usize>>, items: Seq<T>) -> Seq<Seq<T>> {
    parts.map_values(|part: Seq<usize>| part.map_values(|index: usize| items[index as int]))
}

/// A part with every index moved up.
pub open spec fn moved_part(part: Seq<usize>, offset: nat) -> Seq<usize> {
    part.map_values(|index: usize| (index + offset) as usize)
}

/// The parts with every index moved up.
pub open spec fn moved_parts(parts: Seq<Seq<usize>>, offset: nat) -> Seq<Seq<usize>> {
    parts.map_values(|part: Seq<usize>| moved_part(part, offset))
}

/// Two lists of parts side by side, the second moved past the indices of the first.
pub open spec fn beside_parts(left: Seq<Seq<usize>>, right: Seq<Seq<usize>>) -> Seq<Seq<usize>> {
    left + moved_parts(right, total(left))
}

/// The parts as they point once the items they point into are put in another order: each index is where the item
/// it pointed at has gone.
pub open spec fn reindexed_parts(parts: Seq<Seq<usize>>, order: Seq<int>) -> Seq<Seq<usize>> {
    parts.map_values(
        |part: Seq<usize>| part.map_values(|index: usize| order.index_of(index as int) as usize),
    )
}

/// The lists, one after another.
pub open spec fn concatenated<T>(lists: Seq<Seq<T>>) -> Seq<T>
    decreases lists.len(),
{
    if lists.len() == 0 {
        Seq::empty()
    } else {
        concatenated(lists.drop_last()) + lists.last()
    }
}

/// One part per index.
pub open spec fn singleton_parts(n: nat) -> Seq<Seq<usize>> {
    Seq::new(n, |k: int| seq![k as usize])
}

/// All indices in one part, or no part at all when there is no index to hold.
pub open spec fn whole_parts(n: nat) -> Seq<Seq<usize>> {
    if n == 0 {
        Seq::empty()
    } else {
        seq![Seq::new(n, |k: int| k as usize)]
    }
}

/// What reading one part from position `i` on finds wrong with it, `seen` being the indices read
/// before; nothing wrong hands back everything seen.
pub open spec fn scan_part(
    part: Seq<usize>,
    i: int,
    seen: Set<usize>,
    num_qubits: usize,
) -> Result<Set<usize>, PartitionError>
    decreases part.len() - i,
{
    if i < 0 || i >= part.len() {
        Ok(seen)
    } else if part[i] >= num_qubits {
        Err(PartitionError::IndexOutOfRange { index: part[i], num_qubits })
    } else if seen.contains(part[i]) {
        Err(PartitionError::DuplicateIndex(part[i]))
    } else {
        scan_part(part, i + 1, seen.insert(part[i]), num_qubits)
    }
}

/// What reading the parts in order from position `p` on finds wrong first.
pub open spec fn scan_parts(
    parts: Seq<Seq<usize>>,
    p: int,
    seen: Set<usize>,
    num_qubits: usize,
) -> Result<Set<usize>, PartitionError>
    decreases parts.len() - p,
{
    if p < 0 || p >= parts.len() {
        Ok(seen)
    } else if parts[p].len() == 0 {
        Err(PartitionError::EmptyPart)
    } else {
        match scan_part(parts[p], 0, seen, num_qubits) {
            Err(fault) => Err(fault),
            Ok(seen) => scan_parts(parts, p + 1, seen, num_qubits),
        }
    }
}

/// The first thing wrong with a list of parts, reading it in order.
pub open spec fn first_fault(parts: Seq<Seq<usize>>) -> Option<PartitionError> {
    match scan_parts(parts, 0, Set::empty(), total(parts) as usize) {
        Err(fault) => Some(fault),
        Ok(_) => None,
    }
}

/// A partition of the first *n* integers, grouping an item's qubits into subsystems.
///
/// The parts hold **indices into the qubits of whatever carries the partition**: an emission's qubits,
/// a collect box's qubits, a sampling-graph node's own qubit list. Every one of those already names its
/// qubits, so recording them here too would be a second copy of that list, free to drift out of
/// agreement with it; indices cannot. Pair them back up with [`groups`](Self::groups).
///
/// So `[[0], [2, 1]]` over qubits `[3, 5, 4]` is one subsystem on qubit 3 and one joint subsystem on
/// qubits 4 and 5. Parts need not be consecutive runs and need not be sorted: **the order is the
/// caller's**, because per-part descriptors are parallel with the parts, so reordering here would
/// silently repoint them.
#[derive(Debug, PartialEq, Eq)]
pub struct Partition(
    /// The parts, each a non-empty set of indices; together exactly the indices below their total.
    Vec<Vec<usize>>,
);

impl View for Partition {
    type V = Seq<Seq<usize>>;

    closed spec fn view(&self) -> Seq<Seq<usize>> {
        nested(self.0@)
    }
}

impl Partition {
    #[verifier::type_invariant]
    spec fn valid(self) -> bool {
        &&& is_partition(nested(self.0@))
        &&& total(nested(self.0@)) <= usize::MAX
    }

    /// One subsystem per qubit: the common case, where each qubit is sampled on its own.
    pub fn singletons(n: usize) -> (partition: Self)
        ensures
            partition@ == singleton_parts(n as nat),
    {
        let mut parts: Vec<Vec<usize>> = Vec::new();
        let mut k: usize = 0;
        while k < n
            invariant
                k <= n,
                parts.len() == k,
                forall|p: int| 0 <= p < k ==> (#[trigger] parts@[p])@ == seq![p as usize],
            decreases n - k,
        {
            let mut part: Vec<usize> = Vec::new();
            part.push(k);
            proof {
                assert(part@ =~= seq![k]);
            }
            parts.push(part);
            k += 1;
        }
        proof {
            assert(nested(parts@) =~= singleton_parts(n as nat));
            lemma_singletons_are_a_partition(n);
        }
        Partition(parts)
    }

    /// All `n` qubits in one joint subsystem. Empty when `n` is zero: a part covers at least one
    /// qubit, so there is nothing to hold.
    pub fn whole(n: usize) -> (partition: Self)
        ensures
            partition@ == whole_parts(n as nat),
    {
        let mut parts: Vec<Vec<usize>> = Vec::new();
        if n > 0 {
            let mut part: Vec<usize> = Vec::new();
            let mut k: usize = 0;
            while k < n
                invariant
                    k <= n,
                    part@ == Seq::new(k as nat, |j: int| j as usize),
                decreases n - k,
            {
                part.push(k);
                proof {
                    assert(part@ =~= Seq::new((k + 1) as nat, |j: int| j as usize));
                }
                k += 1;
            }
            parts.push(part);
        }
        proof {
            assert(nested(parts@) =~= whole_parts(n as nat));
            lemma_whole_is_a_partition(n);
        }
        Partition(parts)
    }

    /// Group qubits explicitly, by index.
    ///
    /// The parts must be a genuine partition: no empty part, no index twice, and, since *n* is read
    /// off the parts themselves, no index at or beyond the total they cover, which leaves no room for
    /// a gap.
    pub fn new(parts: Vec<Vec<usize>>) -> (result: Result<Self, PartitionError>)
        requires
            total(nested(parts@)) <= usize::MAX,
        ensures
            result matches Ok(partition) ==> partition@ == nested(parts@) && is_partition(
                nested(parts@),
            ),
            match first_fault(nested(parts@)) {
                Some(fault) => result == Err::<Self, PartitionError>(fault),
                None => result is Ok,
            },
    {
        let ghost view = nested(parts@);
        let num_qubits: usize = count(&parts);
        let mut seen: Vec<bool> = Vec::new();
        let mut k: usize = 0;
        while k < num_qubits
            invariant
                k <= num_qubits,
                seen.len() == k,
                forall|j: int| 0 <= j < k ==> !seen@[j],
            decreases num_qubits - k,
        {
            seen.push(false);
            k += 1;
        }
        let ghost mut marked: Set<usize> = Set::empty();
        let mut p: usize = 0;
        while p < parts.len()
            invariant
                p <= parts.len(),
                view == nested(parts@),
                num_qubits == total(view),
                seen.len() == num_qubits,
                forall|j: usize| j < num_qubits ==> (#[trigger] seen@[j as int]) == marked.contains(j),
                scan_parts(view, 0, Set::empty(), num_qubits) == scan_parts(
                    view,
                    p as int,
                    marked,
                    num_qubits,
                ),
            decreases parts.len() - p,
        {
            let part = &parts[p];
            assert(view[p as int] == part@);
            if part.len() == 0 {
                return Err(PartitionError::EmptyPart);
            }
            let ghost before = marked;
            let mut i: usize = 0;
            while i < part.len()
                invariant
                    i <= part.len(),
                    p < parts.len(),
                    *part == parts@[p as int],
                    part.len() > 0,
                    view == nested(parts@),
                    view[p as int] == part@,
                    num_qubits == total(view),
                    seen.len() == num_qubits,
                    forall|j: usize|
                        j < num_qubits ==> (#[trigger] seen@[j as int]) == marked.contains(j),
                    scan_part(part@, 0, before, num_qubits) == scan_part(
                        part@,
                        i as int,
                        marked,
                        num_qubits,
                    ),
                    scan_parts(view, 0, Set::empty(), num_qubits) == scan_parts(
                        view,
                        p as int,
                        before,
                        num_qubits,
                    ),
                decreases part.len() - i,
            {
                let index: usize = part[i];
                if index >= num_qubits {
                    return Err(PartitionError::IndexOutOfRange { index, num_qubits });
                }
                if seen[index] {
                    return Err(PartitionError::DuplicateIndex(index));
                }
                seen.set(index, true);
                proof {
                    marked = marked.insert(index);
                }
                i += 1;
            }
            p += 1;
        }
        proof {
            lemma_scan_finds_partitions(view);
        }
        Ok(Partition(parts))
    }

    /// How many subsystems there are. Parallel with the item's per-part descriptors.
    pub fn len(&self) -> (count: usize)
        ensures
            count == self@.len(),
    {
        self.0.len()
    }

    /// Whether there are no subsystems at all, which is also to say no qubits.
    pub fn is_empty(&self) -> (empty: bool)
        ensures
            empty == (self@.len() == 0),
            empty == (total(self@) == 0),
    {
        proof {
            use_type_invariant(self);
            if self@.len() > 0 {
                assert(self@[self@.len() - 1].len() > 0);
            }
        }
        self.0.len() == 0
    }

    /// How many qubits the partition covers: the *n* it is a partition of, and so the width of the
    /// item carrying it.
    pub fn num_qubits(&self) -> (count: usize)
        ensures
            count == total(self@),
    {
        proof {
            use_type_invariant(self);
        }
        count(&self.0)
    }

    /// One of the parts.
    pub fn part(&self, index: usize) -> (part: &[usize])
        requires
            index < self@.len(),
        ensures
            part@ == self@[index as int],
    {
        self.0[index].as_slice()
    }

    /// The parts, in order.
    pub fn iter(&self) -> (parts: &Vec<Vec<usize>>)
        ensures
            nested(parts@) == self@,
            is_partition(self@),
            total(self@) <= usize::MAX,
    {
        proof {
            use_type_invariant(self);
        }
        &self.0
    }

    /// Whether every subsystem is a single qubit, which is how most partitions come out.
    pub fn is_singletons(&self) -> (all_single: bool)
        ensures
            all_single == (forall|p: int| 0 <= p < self@.len() ==> (#[trigger] self@[p]).len() == 1),
    {
        let mut p: usize = 0;
        while p < self.0.len()
            invariant
                p <= self.0.len(),
                forall|q: int| 0 <= q < p ==> (#[trigger] self@[q]).len() == 1,
            decreases self.0.len() - p,
        {
            assert(self@[p as int] == self.0@[p as int]@);
            if self.0[p].len() != 1 {
                return false;
            }
            p += 1;
        }
        true
    }

    /// Resolve the indices against the qubits they point into, one group per subsystem.
    ///
    /// A partition and the qubits it describes travel together, so `qubits` is exactly as long as the
    /// partition is wide.
    pub fn groups<T: Copy>(&self, qubits: &[T]) -> (groups: Vec<Vec<T>>)
        requires
            qubits@.len() == total(self@),
        ensures
            nested(groups@) == groups_of(self@, qubits@),
    {
        proof {
            use_type_invariant(self);
        }
        let mut groups: Vec<Vec<T>> = Vec::new();
        let mut p: usize = 0;
        while p < self.0.len()
            invariant
                p <= self.0.len(),
                is_partition(self@),
                qubits@.len() == total(self@),
                groups.len() == p,
                forall|q: int|
                    0 <= q < p ==> (#[trigger] groups@[q])@ == groups_of(self@, qubits@)[q],
            decreases self.0.len() - p,
        {
            let part = &self.0[p];
            assert(self@[p as int] == part@);
            let mut group: Vec<T> = Vec::new();
            let mut i: usize = 0;
            while i < part.len()
                invariant
                    i <= part.len(),
                    p < self.0.len(),
                    part@ == self@[p as int],
                    is_partition(self@),
                    qubits@.len() == total(self@),
                    group.len() == i,
                    forall|j: int| 0 <= j < i ==> group@[j] == qubits@[part@[j] as int],
                decreases part.len() - i,
            {
                assert(self@[p as int][i as int] < total(self@));
                group.push(qubits[part[i]]);
                i += 1;
            }
            assert(group@ =~= groups_of(self@, qubits@)[p as int]);
            groups.push(group);
            p += 1;
        }
        assert(nested(groups@) =~= groups_of(self@, qubits@));
        groups
    }

    /// Two partitions side by side: the parts of the first, then those of the second, moved past the
    /// indices of the first.
    pub fn beside(&self, other: &Partition) -> (joined: Self)
        requires
            total(self@) + total(other@) <= usize::MAX,
        ensures
            joined@ == beside_parts(self@, other@),
    {
        proof {
            use_type_invariant(self);
            use_type_invariant(other);
            lemma_beside_is_a_partition(self@, other@);
        }
        let offset: usize = self.num_qubits();
        let mut parts = clone_lists(&self.0);
        let mut p: usize = 0;
        while p < other.0.len()
            invariant
                p <= other.0.len(),
                offset == total(self@),
                is_partition(other@),
                total(self@) + total(other@) <= usize::MAX,
                nested(parts@) == self@ + moved_parts(other@.take(p as int), total(self@)),
            decreases other.0.len() - p,
        {
            let part = &other.0[p];
            assert(other@[p as int] == part@);
            let mut shifted: Vec<usize> = Vec::new();
            let mut i: usize = 0;
            while i < part.len()
                invariant
                    i <= part.len(),
                    p < other.0.len(),
                    part@ == other@[p as int],
                    offset == total(self@),
                    is_partition(other@),
                    total(self@) + total(other@) <= usize::MAX,
                    shifted@ == moved_part(part@.take(i as int), total(self@)),
                decreases part.len() - i,
            {
                assert(other@[p as int][i as int] < total(other@));
                shifted.push(part[i] + offset);
                assert(shifted@ =~= moved_part(part@.take(i + 1), total(self@)));
                i += 1;
            }
            assert(part@.take(i as int) =~= part@);
            let ghost before = nested(parts@);
            parts.push(shifted);
            assert(nested(parts@) =~= before.push(shifted@));
            assert(nested(parts@) =~= self@ + moved_parts(other@.take(p + 1), total(self@)));
            p += 1;
        }
        assert(other@.take(p as int) =~= other@);
        Partition(parts)
    }

    /// The partition of the same items put in another order, each named by where it stood.
    pub fn reindexed(&self, order: &Vec<usize>) -> (partition: Self)
        requires
            permutes(positions(order@)),
            order@.len() == total(self@),
        ensures
            partition@ == reindexed_parts(self@, positions(order@)),
    {
        let ghost named = positions(order@);
        proof {
            use_type_invariant(self);
            lemma_reindexed_is_a_partition(self@, named);
        }
        let inverse = inverted(order);
        let mut parts: Vec<Vec<usize>> = Vec::new();
        let mut p: usize = 0;
        while p < self.0.len()
            invariant
                p <= self.0.len(),
                is_partition(self@),
                inverse@.len() == total(self@),
                named.len() == total(self@),
                forall|k: int|
                    0 <= k < inverse@.len() ==> (#[trigger] inverse@[k]) == named.index_of(k) as usize,
                parts.len() == p,
                forall|q: int|
                    0 <= q < p ==> (#[trigger] parts@[q])@ == reindexed_parts(self@, named)[q],
            decreases self.0.len() - p,
        {
            let part = &self.0[p];
            assert(self@[p as int] == part@);
            let mut moved: Vec<usize> = Vec::new();
            let mut i: usize = 0;
            while i < part.len()
                invariant
                    i <= part.len(),
                    p < self.0.len(),
                    part@ == self@[p as int],
                    is_partition(self@),
                    inverse@.len() == total(self@),
                    forall|k: int|
                        0 <= k < inverse@.len() ==> (#[trigger] inverse@[k]) == named.index_of(
                            k,
                        ) as usize,
                    moved.len() == i,
                    forall|j: int|
                        0 <= j < i ==> moved@[j] == named.index_of(part@[j] as int) as usize,
                decreases part.len() - i,
            {
                assert(self@[p as int][i as int] < total(self@));
                moved.push(inverse[part[i]]);
                i += 1;
            }
            assert(moved@ =~= reindexed_parts(self@, named)[p as int]);
            parts.push(moved);
            p += 1;
        }
        assert(nested(parts@) =~= reindexed_parts(self@, named));
        Partition(parts)
    }

    /// The parts as text, such as `[[0], [2, 1]]`.
    pub fn to_text(&self) -> (text: String)
        ensures
            text@ == text::nested_numbers_text(self@),
    {
        text::nested_numbers(&self.0)
    }
}

impl Clone for Partition {
    fn clone(&self) -> (copy: Self)
        ensures
            copy@ == self@,
    {
        proof {
            use_type_invariant(self);
        }
        let parts = clone_lists(&self.0);
        Partition(parts)
    }
}

/// Where each position has gone, given what has come to each place.
fn inverted(order: &Vec<usize>) -> (inverse: Vec<usize>)
    requires
        permutes(positions(order@)),
    ensures
        inverse@.len() == order@.len(),
        forall|k: int|
            0 <= k < inverse@.len() ==> (#[trigger] inverse@[k]) == positions(order@).index_of(
                k,
            ) as usize,
{
    let ghost named = positions(order@);
    let mut inverse: Vec<usize> = Vec::new();
    let mut k: usize = 0;
    while k < order.len()
        invariant
            k <= order.len(),
            inverse.len() == k,
        decreases order.len() - k,
    {
        inverse.push(0);
        k += 1;
    }
    let mut at: usize = 0;
    while at < order.len()
        invariant
            at <= order.len(),
            inverse.len() == order.len(),
            named == positions(order@),
            permutes(named),
            forall|i: int| 0 <= i < at ==> inverse@[(#[trigger] named[i])] == i,
        decreases order.len() - at,
    {
        assert(named[at as int] == order@[at as int]);
        let ghost before = inverse@;
        inverse.set(order[at], at);
        assert forall|i: int| 0 <= i < at + 1 implies inverse@[(#[trigger] named[i])] == i by {
            if i < at {
                assert(named[i] != named[at as int]);
                assert(before[named[i]] == i);
            }
        }
        at += 1;
    }
    assert forall|k: int| 0 <= k < inverse@.len() implies (#[trigger] inverse@[k]) == named.index_of(
        k,
    ) as usize by {
        assert(named.contains(k));
        let i = named.index_of(k);
        assert(named[i] == k);
    }
    inverse
}

/// A copy of a list of lists.
pub fn clone_lists(lists: &Vec<Vec<usize>>) -> (copy: Vec<Vec<usize>>)
    ensures
        nested(copy@) == nested(lists@),
{
    let mut copy: Vec<Vec<usize>> = Vec::new();
    let mut p: usize = 0;
    while p < lists.len()
        invariant
            p <= lists.len(),
            copy.len() == p,
            forall|q: int| 0 <= q < p ==> (#[trigger] copy@[q])@ == lists@[q]@,
        decreases lists.len() - p,
    {
        let list = clone_list(&lists[p]);
        copy.push(list);
        p += 1;
    }
    assert(nested(copy@) =~= nested(lists@));
    copy
}

/// A copy of a list.
pub fn clone_list<T: Copy>(list: &Vec<T>) -> (copy: Vec<T>)
    ensures
        copy@ == list@,
{
    let mut copy: Vec<T> = Vec::new();
    let mut i: usize = 0;
    while i < list.len()
        invariant
            i <= list.len(),
            copy@ == list@.take(i as int),
        decreases list.len() - i,
    {
        copy.push(list[i]);
        assert(copy@ =~= list@.take(i + 1));
        i += 1;
    }
    assert(list@.take(i as int) =~= list@);
    copy
}

/// The number of entries in a list of lists.
fn count(parts: &Vec<Vec<usize>>) -> (sum: usize)
    requires
        total(nested(parts@)) <= usize::MAX,
    ensures
        sum == total(nested(parts@)),
{
    let ghost view = nested(parts@);
    let mut sum: usize = 0;
    let mut p: usize = 0;
    while p < parts.len()
        invariant
            p <= parts.len(),
            view == nested(parts@),
            total(view) <= usize::MAX,
            sum == total(view.take(p as int)),
        decreases parts.len() - p,
    {
        proof {
            assert(view.take(p + 1).drop_last() =~= view.take(p as int));
            assert(view.take(p + 1).last() == parts@[p as int]@);
            lemma_total_take(view, p + 1);
        }
        sum += parts[p].len();
        p += 1;
    }
    assert(view.take(p as int) =~= view);
    sum
}

/// A prefix of a list of parts holds no more than the whole.
pub proof fn lemma_total_take(parts: Seq<Seq<usize>>, k: int)
    requires
        0 <= k <= parts.len(),
    ensures
        total(parts.take(k)) <= total(parts),
    decreases parts.len(),
{
    if k == parts.len() {
        assert(parts.take(k) =~= parts);
    } else {
        lemma_total_take(parts.drop_last(), k);
        assert(parts.drop_last().take(k) =~= parts.take(k));
    }
}

/// Two lists of parts hold between them what they hold one by one.
pub proof fn lemma_total_add(left: Seq<Seq<usize>>, right: Seq<Seq<usize>>)
    ensures
        total(left + right) == total(left) + total(right),
    decreases right.len(),
{
    if right.len() == 0 {
        assert(left + right =~= left);
    } else {
        lemma_total_add(left, right.drop_last());
        assert((left + right).drop_last() =~= left + right.drop_last());
        assert((left + right).last() == right.last());
    }
}

/// Moving indices changes no part's size.
pub proof fn lemma_moved_total(parts: Seq<Seq<usize>>, offset: nat)
    ensures
        total(moved_parts(parts, offset)) == total(parts),
    decreases parts.len(),
{
    if parts.len() > 0 {
        lemma_moved_total(parts.drop_last(), offset);
        assert(moved_parts(parts, offset).drop_last() =~= moved_parts(parts.drop_last(), offset));
    }
}

/// Pointing into the items in another order changes no part's size.
pub proof fn lemma_reindexed_total(parts: Seq<Seq<usize>>, order: Seq<int>)
    ensures
        total(reindexed_parts(parts, order)) == total(parts),
    decreases parts.len(),
{
    if parts.len() > 0 {
        lemma_reindexed_total(parts.drop_last(), order);
        assert(reindexed_parts(parts, order).drop_last() =~= reindexed_parts(
            parts.drop_last(),
            order,
        ));
    }
}

/// A partition stays one when the items it points into are put in another order.
pub proof fn lemma_reindexed_is_a_partition(parts: Seq<Seq<usize>>, order: Seq<int>)
    requires
        is_partition(parts),
        permutes(order),
        order.len() == total(parts),
        total(parts) <= usize::MAX,
    ensures
        is_partition(reindexed_parts(parts, order)),
        total(reindexed_parts(parts, order)) == total(parts),
{
    let after = reindexed_parts(parts, order);
    lemma_reindexed_total(parts, order);
    assert forall|p: int| 0 <= p < after.len() implies (#[trigger] after[p]).len() > 0 by {
        assert(parts[p].len() > 0);
    }
    assert forall|p: int, i: int| 0 <= p < after.len() && 0 <= i < after[p].len() implies (
    #[trigger] after[p][i]) < total(after) && order[after[p][i] as int] == parts[p][i] by {
        assert(parts[p][i] < total(parts));
        assert(order.contains(parts[p][i] as int));
    }
}

/// Reading the groups of a partition finds the same items in the same places, whatever order they are listed in.
pub proof fn lemma_reindexed_groups_alike<T>(
    parts: Seq<Seq<usize>>,
    items: Seq<T>,
    order: Seq<int>,
)
    requires
        is_partition(parts),
        permutes(order),
        order.len() == total(parts),
        items.len() == total(parts),
        total(parts) <= usize::MAX,
    ensures
        groups_of(reindexed_parts(parts, order), arranged(items, order)) == groups_of(parts, items),
{
    let after = reindexed_parts(parts, order);
    let one = groups_of(after, arranged(items, order));
    let other = groups_of(parts, items);
    assert forall|p: int| 0 <= p < one.len() implies (#[trigger] one[p]) == other[p] by {
        assert forall|i: int| 0 <= i < one[p].len() implies (#[trigger] one[p][i]) == other[p][i] by {
            assert(parts[p][i] < total(parts));
            assert(order.contains(parts[p][i] as int));
            assert(order[after[p][i] as int] == parts[p][i]);
        }
        assert(one[p] =~= other[p]);
    }
    assert(one =~= other);
}

/// The groups of a partition hold the items it groups, each as often as it was listed.
pub proof fn lemma_groups_rearrange_the_items<T>(parts: Seq<Seq<usize>>, items: Seq<T>)
    requires
        is_partition(parts),
        items.len() == total(parts),
    ensures
        concatenated(groups_of(parts, items)).to_multiset() == items.to_multiset(),
{
    lemma_partition_permutes(parts);
    let flat = concatenated(parts);
    lemma_arranging_loses_nothing(items, positions(flat));
    lemma_concatenated_groups(parts, items);
    assert(arranged(items, positions(flat)) =~= flat.map_values(|index: usize| items[index as int]));
}

proof fn lemma_concatenated_groups<T>(parts: Seq<Seq<usize>>, items: Seq<T>)
    ensures
        concatenated(groups_of(parts, items)) == concatenated(parts).map_values(
            |index: usize| items[index as int],
        ),
    decreases parts.len(),
{
    let pick = |index: usize| items[index as int];
    let groups = groups_of(parts, items);
    if parts.len() == 0 {
        assert(concatenated(groups) =~= concatenated(parts).map_values(pick));
    } else {
        lemma_concatenated_groups(parts.drop_last(), items);
        assert(groups.drop_last() =~= groups_of(parts.drop_last(), items));
        assert(groups.last() == parts.last().map_values(pick));
        assert(concatenated(groups) =~= concatenated(parts).map_values(pick));
    }
}

/// The indices themselves group into the parts.
pub proof fn lemma_indices_group_into_the_parts(parts: Seq<Seq<usize>>)
    requires
        is_partition(parts),
    ensures
        groups_of(parts, Seq::new(total(parts), |k: int| k as usize)) == parts,
{
    let groups = groups_of(parts, Seq::new(total(parts), |k: int| k as usize));
    assert forall|p: int| 0 <= p < groups.len() implies (#[trigger] groups[p]) == parts[p] by {
        assert forall|i: int| 0 <= i < groups[p].len() implies (#[trigger] groups[p][i]) == parts[p][i] by {
            assert(parts[p][i] < total(parts));
        }
        assert(groups[p] =~= parts[p]);
    }
    assert(groups =~= parts);
}

/// Changing each item and then grouping is grouping and then changing each item.
pub proof fn lemma_groups_follow_a_map<T, U>(
    parts: Seq<Seq<usize>>,
    items: Seq<T>,
    f: spec_fn(T) -> U,
)
    requires
        is_partition(parts),
        items.len() == total(parts),
    ensures
        groups_of(parts, items.map_values(f)) == groups_of(parts, items).map_values(
            |group: Seq<T>| group.map_values(f),
        ),
{
    let one = groups_of(parts, items.map_values(f));
    let other = groups_of(parts, items).map_values(|group: Seq<T>| group.map_values(f));
    assert forall|p: int| 0 <= p < one.len() implies (#[trigger] one[p]) == other[p] by {
        assert forall|i: int| 0 <= i < one[p].len() implies (#[trigger] one[p][i]) == other[p][i] by {
            assert(parts[p][i] < total(parts));
        }
        assert(one[p] =~= other[p]);
    }
    assert(one =~= other);
}

/// Two partitions side by side are a partition of as many indices as both.
pub proof fn lemma_beside_is_a_partition(left: Seq<Seq<usize>>, right: Seq<Seq<usize>>)
    requires
        is_partition(left),
        is_partition(right),
        total(left) + total(right) <= usize::MAX,
    ensures
        is_partition(beside_parts(left, right)),
        total(beside_parts(left, right)) == total(left) + total(right),
{
    let moved = moved_parts(right, total(left));
    let parts = beside_parts(left, right);
    lemma_moved_total(right, total(left));
    lemma_total_add(left, moved);
    assert forall|p: int| 0 <= p < parts.len() implies (#[trigger] parts[p]).len() > 0 by {
        if p < left.len() {
            assert(parts[p] == left[p]);
        } else {
            assert(parts[p] == moved_part(right[p - left.len()], total(left)));
            assert(right[p - left.len()].len() > 0);
        }
    }
    assert forall|p: int, i: int|
        0 <= p < parts.len() && 0 <= i < parts[p].len() implies (if p < left.len() {
        #[trigger] parts[p][i] == left[p][i] && parts[p][i] < total(left)
    } else {
        parts[p][i] == right[p - left.len()][i] + total(left) && parts[p][i] < total(parts)
    }) by {
        if p < left.len() {
            assert(left[p][i] < total(left));
        } else {
            assert(right[p - left.len()][i] < total(right));
        }
    }
    assert forall|p: int, i: int, q: int, j: int|
        0 <= p < parts.len() && 0 <= i < parts[p].len() && 0 <= q < parts.len() && 0 <= j
            < parts[q].len() && #[trigger] parts[p][i] == #[trigger] parts[q][j] implies p == q && i
        == j by {
        if p < left.len() && q < left.len() {
            assert(left[p][i] == left[q][j]);
        } else if p >= left.len() && q >= left.len() {
            assert(right[p - left.len()][i] == right[q - left.len()][j]);
        }
    }
}

proof fn lemma_singletons_total(n: nat)
    ensures
        total(singleton_parts(n)) == n,
    decreases n,
{
    if n > 0 {
        lemma_singletons_total((n - 1) as nat);
        assert(singleton_parts(n).drop_last() =~= singleton_parts((n - 1) as nat));
    }
}

/// One part per index is a partition, of exactly that many indices.
pub proof fn lemma_singletons_are_a_partition(n: usize)
    ensures
        is_partition(singleton_parts(n as nat)),
        total(singleton_parts(n as nat)) == n,
{
    lemma_singletons_total(n as nat);
    let parts = singleton_parts(n as nat);
    assert forall|p: int| 0 <= p < parts.len() implies (#[trigger] parts[p]).len() > 0 by {
        assert(parts[p] == seq![p as usize]);
    }
}

/// All indices in one part is a partition, of exactly that many indices.
pub proof fn lemma_whole_is_a_partition(n: usize)
    ensures
        is_partition(whole_parts(n as nat)),
        total(whole_parts(n as nat)) == n,
{
    let parts = whole_parts(n as nat);
    if n > 0 {
        assert(parts.drop_last() =~= Seq::<Seq<usize>>::empty());
        assert(total(parts.drop_last()) == 0);
        assert(parts.last().len() == n);
    }
}

/// The indices in the parts before position `p`, and in that part before position `i`.
spec fn read_before(parts: Seq<Seq<usize>>, p: int, i: int, index: usize) -> bool {
    exists|q: int, j: int|
        0 <= q < parts.len() && 0 <= j < parts[q].len() && (q < p || (q == p && j < i))
            && #[trigger] parts[q][j] == index
}

/// Everything at or after a position is in range and new.
spec fn sound_from(parts: Seq<Seq<usize>>, p: int, i: int, num_qubits: usize) -> bool {
    &&& forall|q: int| p <= q < parts.len() ==> (#[trigger] parts[q]).len() > 0
    &&& forall|q: int, j: int|
        0 <= q < parts.len() && 0 <= j < parts[q].len() && (q > p || (q == p && j >= i))
            ==> #[trigger] parts[q][j] < num_qubits && !read_before(parts, q, j, parts[q][j])
}

proof fn lemma_scan_part_sound(
    parts: Seq<Seq<usize>>,
    p: int,
    i: int,
    seen: Set<usize>,
    num_qubits: usize,
)
    requires
        0 <= p < parts.len(),
        0 <= i <= parts[p].len(),
        forall|index: usize| #[trigger] seen.contains(index) <==> read_before(parts, p, i, index),
    ensures
        match scan_part(parts[p], i, seen, num_qubits) {
            Ok(after) => (forall|index: usize| #[trigger]
                after.contains(index) <==> read_before(parts, p, parts[p].len() as int, index)) && (
            forall|j: int|
                i <= j < parts[p].len() ==> #[trigger] parts[p][j] < num_qubits && !read_before(
                    parts,
                    p,
                    j,
                    parts[p][j],
                )),
            Err(_) => exists|j: int|
                i <= j < parts[p].len() && (#[trigger] parts[p][j] >= num_qubits || read_before(
                    parts,
                    p,
                    j,
                    parts[p][j],
                )),
        },
    decreases parts[p].len() - i,
{
    if i < parts[p].len() {
        let index = parts[p][i];
        if index < num_qubits && !seen.contains(index) {
            let next = seen.insert(index);
            assert forall|other: usize| #[trigger]
                next.contains(other) <==> read_before(parts, p, i + 1, other) by {
                if next.contains(other) {
                    if other == index {
                        assert(parts[p][i] == other);
                    } else {
                        assert(read_before(parts, p, i, other));
                        let (q, j) = choose|q: int, j: int|
                            0 <= q < parts.len() && 0 <= j < parts[q].len() && (q < p || (q == p && j
                                < i)) && #[trigger] parts[q][j] == other;
                        assert(parts[q][j] == other);
                    }
                }
                if read_before(parts, p, i + 1, other) {
                    let (q, j) = choose|q: int, j: int|
                        0 <= q < parts.len() && 0 <= j < parts[q].len() && (q < p || (q == p && j < i
                            + 1)) && #[trigger] parts[q][j] == other;
                    if !(q == p && j == i) {
                        assert(read_before(parts, p, i, other));
                    }
                }
            }
            lemma_scan_part_sound(parts, p, i + 1, next, num_qubits);
        }
    }
}

proof fn lemma_scan_parts_sound(
    parts: Seq<Seq<usize>>,
    p: int,
    seen: Set<usize>,
    num_qubits: usize,
)
    requires
        0 <= p <= parts.len(),
        forall|index: usize| #[trigger] seen.contains(index) <==> read_before(parts, p, 0, index),
    ensures
        scan_parts(parts, p, seen, num_qubits) is Ok <==> sound_from(parts, p, 0, num_qubits),
    decreases parts.len() - p,
{
    if p < parts.len() && parts[p].len() > 0 {
        lemma_scan_part_sound(parts, p, 0, seen, num_qubits);
        match scan_part(parts[p], 0, seen, num_qubits) {
            Ok(after) => {
                assert forall|index: usize| #[trigger]
                    after.contains(index) <==> read_before(parts, p + 1, 0, index) by {
                    if read_before(parts, p, parts[p].len() as int, index) {
                        let (q, j) = choose|q: int, j: int|
                            0 <= q < parts.len() && 0 <= j < parts[q].len() && (q < p || (q == p && j
                                < parts[p].len())) && #[trigger] parts[q][j] == index;
                        assert(parts[q][j] == index);
                    }
                    if read_before(parts, p + 1, 0, index) {
                        let (q, j) = choose|q: int, j: int|
                            0 <= q < parts.len() && 0 <= j < parts[q].len() && (q < p + 1 || (q == p
                                + 1 && j < 0)) && #[trigger] parts[q][j] == index;
                        assert(parts[q][j] == index);
                    }
                }
                lemma_scan_parts_sound(parts, p + 1, after, num_qubits);
            },
            Err(_) => {},
        }
    }
}

/// Reading the parts in order finds nothing wrong exactly when they are a partition.
pub proof fn lemma_scan_finds_partitions(parts: Seq<Seq<usize>>)
    requires
        total(parts) <= usize::MAX,
    ensures
        first_fault(parts) is None <==> is_partition(parts),
{
    let n = total(parts) as usize;
    lemma_scan_parts_sound(parts, 0, Set::empty(), n);
    if sound_from(parts, 0, 0, n) {
        assert forall|p: int, i: int, q: int, j: int|
            0 <= p < parts.len() && 0 <= i < parts[p].len() && 0 <= q < parts.len() && 0 <= j
                < parts[q].len() && #[trigger] parts[p][i] == #[trigger] parts[q][j] implies p == q
            && i == j by {
            if p < q || (p == q && i < j) {
                assert(read_before(parts, q, j, parts[q][j]));
            } else if q < p || (q == p && j < i) {
                assert(read_before(parts, p, i, parts[p][i]));
            }
        }
    }
    if is_partition(parts) {
        assert forall|q: int, j: int|
            0 <= q < parts.len() && 0 <= j < parts[q].len() && (q > 0 || (q == 0 && j >= 0))
                implies #[trigger] parts[q][j] < n && !read_before(parts, q, j, parts[q][j]) by {}
    }
}

proof fn lemma_concatenated(parts: Seq<Seq<usize>>) -> (at: spec_fn(int) -> (int, int))
    ensures
        concatenated(parts).len() == total(parts),
        forall|k: int|
            0 <= k < concatenated(parts).len() ==> {
                let (p, i) = #[trigger] at(k);
                0 <= p < parts.len() && 0 <= i < parts[p].len() && parts[p][i] == concatenated(parts)[k]
            },
        forall|k: int, l: int|
            0 <= k < concatenated(parts).len() && 0 <= l < concatenated(parts).len() && k != l ==> #[trigger]
            at(k) != #[trigger] at(l),
    decreases parts.len(),
{
    if parts.len() == 0 {
        |k: int| (0int, 0int)
    } else {
        let front = parts.drop_last();
        let inner = lemma_concatenated(front);
        let n = concatenated(front).len() as int;
        let at = |k: int|
            if k < n {
                inner(k)
            } else {
                (parts.len() - 1, k - n)
            };
        assert forall|k: int| 0 <= k < concatenated(parts).len() implies {
            let (p, i) = #[trigger] at(k);
            0 <= p < parts.len() && 0 <= i < parts[p].len() && parts[p][i] == concatenated(parts)[k]
        } by {
            if k < n {
                let (p, i) = inner(k);
                assert(front[p] == parts[p]);
            }
        }
        at
    }
}

proof fn lemma_partition_permutes(parts: Seq<Seq<usize>>)
    requires
        is_partition(parts),
    ensures
        permutes(positions(concatenated(parts))),
        concatenated(parts).len() == total(parts),
{
    let flat = concatenated(parts);
    let at = lemma_concatenated(parts);
    let named = positions(flat);
    assert forall|k: int| 0 <= k < named.len() implies 0 <= (#[trigger] named[k]) < named.len() by {
        let (p, i) = at(k);
        assert(parts[p][i] == flat[k]);
    }
    assert forall|k: int, l: int| 0 <= k < named.len() && 0 <= l < named.len() && k != l implies named[k]
        != named[l] by {
        let (p, i) = at(k);
        let (q, j) = at(l);
        assert(parts[p][i] == flat[k] && parts[q][j] == flat[l]);
    }
    named.unique_seq_to_set();
    let range = vstd::set_lib::set_int_range(0, total(parts) as int);
    vstd::set_lib::lemma_int_range(0, total(parts) as int);
    assert(named.to_set().subset_of(range)) by {
        assert forall|v: int| named.to_set().contains(v) implies range.contains(v) by {
            let k = choose|k: int| 0 <= k < named.len() && named[k] == v;
            assert(0 <= named[k] < named.len());
        }
    }
    vstd::set_lib::lemma_subset_equality(named.to_set(), range);
    assert forall|position: int| 0 <= position < named.len() implies #[trigger] named.contains(position) by {
        assert(named.to_set().contains(position));
    }
}

/// A partition leaves no gap: every index below its total is in some part.
pub proof fn lemma_partition_covers(parts: Seq<Seq<usize>>, index: usize)
    requires
        is_partition(parts),
        index < total(parts),
    ensures
        exists|p: int, i: int|
            0 <= p < parts.len() && 0 <= i < parts[p].len() && #[trigger] parts[p][i] == index,
{
    let at = lemma_concatenated(parts);
    lemma_partition_permutes(parts);
    let named = positions(concatenated(parts));
    assert(named.contains(index as int));
    let k = choose|k: int| 0 <= k < named.len() && named[k] == index as int;
    let (p, i) = at(k);
    assert(parts[p][i] == index);
}

} // verus!
