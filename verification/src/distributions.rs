//! The emission circuit's side object: the deduplicated distributions its `Emit` instructions draw
//! from.
//!
//! Produced by the build pass and immutable thereafter, so it is an *input* to lowering. The draw counts
//! size each entry's sample array.

use vstd::prelude::*;
use vstd::string::*;

use crate::annotated_circuit::ChangeBasisMode;
use crate::annotated_circuit::DistributionType;
use crate::collections::EntryKey;
use crate::collections::EntryKeyModel;
use crate::collections::EntryLookup;
use crate::collections::NoiseModifiers;
use crate::text;
use crate::virtual_type::VirtualType;

verus! {

/// A key into a [`DistributionTable`].
#[derive(Debug, Clone, Copy, PartialEq, Eq, Structural, Hash, PartialOrd, Ord)]
pub struct DistKey(pub u32);

impl DistKey {
    /// The index this key refers to.
    pub fn index(&self) -> (index: usize)
        ensures
            index == self.0,
    {
        self.0 as usize
    }
}

/// A single entry in a [`DistributionTable`].
#[derive(Debug, PartialEq, Eq, Hash)]
pub enum DistEntry {
    /// A randomization distribution, e.g. from a `Twirl`.
    Distribution(DistributionType),
    /// A reference to a Pauli-Lindblad noise map, with an optional modifier.
    Noise { reference: String, modifier: Option<String> },
    /// A deterministic frame change, referencing user-supplied basis data.
    Basis { mode: ChangeBasisMode, ref_id: String },
}

/// What an entry says.
pub enum DistEntryModel {
    Distribution(DistributionType),
    Noise { reference: Seq<char>, modifier: Option<Seq<char>> },
    Basis { mode: ChangeBasisMode, ref_id: Seq<char> },
}

impl View for DistEntry {
    type V = DistEntryModel;

    open spec fn view(&self) -> DistEntryModel {
        match self {
            Self::Distribution(distribution) => DistEntryModel::Distribution(*distribution),
            Self::Noise { reference, modifier } => DistEntryModel::Noise {
                reference: reference@,
                modifier: match modifier {
                    Some(modifier) => Some(modifier@),
                    None => None,
                },
            },
            Self::Basis { mode, ref_id } => DistEntryModel::Basis { mode: *mode, ref_id: ref_id@ },
        }
    }
}

impl Clone for DistEntry {
    fn clone(&self) -> (copy: Self)
        ensures
            copy == *self,
    {
        match self {
            Self::Distribution(distribution) => Self::Distribution(*distribution),
            Self::Noise { reference, modifier } => Self::Noise {
                reference: reference.clone(),
                modifier: match modifier {
                    Some(modifier) => Some(modifier.clone()),
                    None => None,
                },
            },
            Self::Basis { mode, ref_id } => Self::Basis { mode: *mode, ref_id: ref_id.clone() },
        }
    }
}

impl DistEntryModel {
    /// A short human-readable label.
    pub open spec fn label_text(self) -> Seq<char> {
        match self {
            Self::Distribution(distribution) => distribution.ident_text(),
            Self::Noise { reference, modifier: Some(modifier) } => "Noise("@ + reference + ", "@
                + modifier + ")"@,
            Self::Noise { reference, modifier: None } => "Noise("@ + reference + ")"@,
            Self::Basis { mode, ref_id } => "Basis("@ + mode.ident_text() + ", "@ + ref_id + ")"@,
        }
    }

    /// The algebraic type of the virtual gates drawn from the entry.
    pub open spec fn group(self) -> VirtualType {
        match self {
            Self::Distribution(distribution) => distribution.group(),
            Self::Noise { .. } => VirtualType::Pauli,
            Self::Basis { mode, .. } => mode.group(),
        }
    }
}

impl DistEntry {
    /// A short human-readable label, used in readouts and in graph rendering.
    pub fn label(&self) -> (label: String)
        ensures
            label@ == self@.label_text(),
    {
        match self {
            Self::Distribution(distribution) => String::from_str(distribution.ident()),
            Self::Noise { reference, modifier } => {
                let mut label = String::from_str("Noise(");
                label.append(reference.as_str());
                if let Some(modifier) = modifier {
                    label.append(", ");
                    label.append(modifier.as_str());
                }
                label.append(")");
                label
            },
            Self::Basis { mode, ref_id } => {
                let mut label = String::from_str("Basis(");
                label.append(mode.ident());
                label.append(", ");
                label.append(ref_id.as_str());
                label.append(")");
                label
            },
        }
    }

    /// The algebraic type of the virtual gates drawn from this entry.
    pub fn virtual_type(&self) -> (virtual_type: VirtualType)
        ensures
            virtual_type == self@.group(),
    {
        match self {
            Self::Distribution(distribution) => distribution.virtual_type(),
            Self::Noise { .. } => VirtualType::Pauli,
            Self::Basis { mode, .. } => mode.virtual_type(),
        }
    }
}

spec fn distribution_code(distribution: DistributionType) -> u8 {
    match distribution {
        DistributionType::UniformPauli => 0,
        DistributionType::BalancedUniformPauli => 1,
        DistributionType::UniformPauliSubset => 2,
        DistributionType::UniformC1 => 3,
        DistributionType::UniformLocalC1 => 4,
        DistributionType::HaarU2 => 5,
    }
}

spec fn mode_code(mode: ChangeBasisMode) -> u8 {
    match mode {
        ChangeBasisMode::PreparePauli => 0,
        ChangeBasisMode::MeasurePauli => 1,
        ChangeBasisMode::LocalClifford => 2,
    }
}

/// The plain form an entry is looked up by.
spec fn plain_entry(entry: DistEntryModel) -> EntryKeyModel {
    match entry {
        DistEntryModel::Distribution(distribution) => (
            0,
            distribution_code(distribution),
            Seq::empty(),
            None,
        ),
        DistEntryModel::Noise { reference, modifier } => (1, 0, reference, modifier),
        DistEntryModel::Basis { mode, ref_id } => (2, mode_code(mode), ref_id, None),
    }
}

proof fn lemma_plain_entry_is_injective(left: DistEntryModel, right: DistEntryModel)
    requires
        plain_entry(left) == plain_entry(right),
    ensures
        left == right,
{
}

fn plain(entry: &DistEntry) -> (key: EntryKey)
    ensures
        crate::collections::entry_key_model(key) == plain_entry(entry@),
{
    match entry {
        DistEntry::Distribution(distribution) => {
            let code: u8 = match distribution {
                DistributionType::UniformPauli => 0,
                DistributionType::BalancedUniformPauli => 1,
                DistributionType::UniformPauliSubset => 2,
                DistributionType::UniformC1 => 3,
                DistributionType::UniformLocalC1 => 4,
                DistributionType::HaarU2 => 5,
            };
            (0, code, String::new(), None)
        },
        DistEntry::Noise { reference, modifier } => (
            1,
            0,
            reference.clone(),
            match modifier {
                Some(modifier) => Some(modifier.clone()),
                None => None,
            },
        ),
        DistEntry::Basis { mode, ref_id } => {
            let code: u8 = match mode {
                ChangeBasisMode::PreparePauli => 0,
                ChangeBasisMode::MeasurePauli => 1,
                ChangeBasisMode::LocalClifford => 2,
            };
            (2, code, ref_id.clone(), None)
        },
    }
}

/// Where an entry stands in a table, or would stand once added.
pub open spec fn entry_slot(entries: Seq<DistEntryModel>, entry: DistEntryModel) -> nat {
    if entries.contains(entry) {
        entries.index_of(entry) as nat
    } else {
        entries.len()
    }
}

/// A table's entries once an entry is in it: as they were if it already was.
pub open spec fn with_entry(entries: Seq<DistEntryModel>, entry: DistEntryModel) -> Seq<
    DistEntryModel,
> {
    if entries.contains(entry) {
        entries
    } else {
        entries.push(entry)
    }
}

/// Whether a reference is modified by this modifier in some entry.
pub open spec fn modifies(
    entries: Seq<DistEntryModel>,
    reference: Seq<char>,
    modifier: Seq<char>,
) -> bool {
    entries.contains(DistEntryModel::Noise { reference, modifier: Some(modifier) })
}

/// The modifiers of a reference.
pub open spec fn modifiers_of(entries: Seq<DistEntryModel>, reference: Seq<char>) -> Set<Seq<char>> {
    Set::new(|modifier: Seq<char>| modifies(entries, reference, modifier))
}

/// The references with at least one modifier.
pub open spec fn modified_references(entries: Seq<DistEntryModel>) -> Set<Seq<char>> {
    Set::new(
        |reference: Seq<char>|
            exists|modifier: Seq<char>| #[trigger] modifies(entries, reference, modifier),
    )
}

/// The entries of a list, one by one.
pub open spec fn entries_model(entries: Seq<DistEntry>) -> Seq<DistEntryModel> {
    entries.map_values(|entry: DistEntry| entry@)
}

/// What a table holds: its entries in key order, and how many draws each is allocated.
pub struct DistributionTableModel {
    pub entries: Seq<DistEntryModel>,
    pub draw_counts: Seq<u32>,
}

/// The deduplicated table of distributions referenced by a circuit's `Emit` instructions.
pub struct DistributionTable {
    entries: Vec<DistEntry>,
    lookup: EntryLookup,
    /// Modifier references grouped by the noise reference they modify.
    noise_modifiers: NoiseModifiers,
    /// How many subsystem draws are allocated for each entry, by key.
    draw_counts: Vec<u32>,
}

impl View for DistributionTable {
    type V = DistributionTableModel;

    closed spec fn view(&self) -> DistributionTableModel {
        DistributionTableModel {
            entries: entries_model(self.entries@),
            draw_counts: self.draw_counts@,
        }
    }
}

impl DistributionTable {
    /// The table's parts agree with each other: no entry is in it twice, each can be looked up, the
    /// modifiers are those of the entries, and every entry has a draw count.
    pub closed spec fn wf(self) -> bool {
        let entries = entries_model(self.entries@);
        &&& entries.no_duplicates()
        &&& entries.len() <= u32::MAX + 1
        &&& self.draw_counts@.len() == entries.len()
        &&& forall|i: int|
            0 <= i < entries.len() ==> self.lookup@.dom().contains(
                plain_entry(#[trigger] entries[i]),
            ) && self.lookup@[plain_entry(entries[i])] == i
        &&& forall|key: EntryKeyModel| #[trigger]
            self.lookup@.dom().contains(key) ==> exists|i: int|
                0 <= i < entries.len() && plain_entry(#[trigger] entries[i]) == key
        &&& self.noise_modifiers@.dom() == modified_references(entries)
        &&& forall|reference: Seq<char>| #[trigger]
            self.noise_modifiers@.dom().contains(reference) ==> self.noise_modifiers@[reference]
                == modifiers_of(entries, reference)
    }

    /// What every table knows about itself.
    pub proof fn lemma_wf(self)
        requires
            self.wf(),
        ensures
            self@.entries.no_duplicates(),
            self@.entries.len() <= u32::MAX + 1,
            self@.draw_counts.len() == self@.entries.len(),
    {
    }

    /// Construct an empty table.
    pub fn new() -> (table: Self)
        ensures
            table.wf(),
            table@.entries == Seq::<DistEntryModel>::empty(),
            table@.draw_counts == Seq::<u32>::empty(),
    {
        let table = DistributionTable {
            entries: Vec::new(),
            lookup: EntryLookup::new(),
            noise_modifiers: NoiseModifiers::new(),
            draw_counts: Vec::new(),
        };
        proof {
            assert(entries_model(table.entries@) =~= Seq::<DistEntryModel>::empty());
            assert(modified_references(entries_model(table.entries@)) =~= Set::<
                Seq<char>,
            >::empty());
        }
        table
    }

    /// Insert `entry`, returning the key for it. Returns the existing key if it is already present.
    pub fn intern(&mut self, entry: DistEntry) -> (key: DistKey)
        requires
            old(self).wf(),
            old(self)@.entries.contains(entry@) || old(self)@.entries.len() <= u32::MAX,
        ensures
            final(self).wf(),
            key.0 == entry_slot(old(self)@.entries, entry@),
            final(self)@.entries == with_entry(old(self)@.entries, entry@),
            final(self)@.draw_counts == (if old(self)@.entries.contains(entry@) {
                old(self)@.draw_counts
            } else {
                old(self)@.draw_counts.push(0)
            }),
    {
        let ghost entries = self@.entries;
        let plain_key = plain(&entry);
        let found = self.lookup.get(&plain_key);
        if let Some(number) = found {
            proof {
                assert(self.lookup@.dom().contains(plain_entry(entry@)));
                let i = choose|i: int|
                    0 <= i < entries.len() && plain_entry(#[trigger] entries[i]) == plain_entry(
                        entry@,
                    );
                lemma_plain_entry_is_injective(entries[i], entry@);
                assert(entries.contains(entry@));
                let j = entries.index_of(entry@);
                assert(entries[j] == entry@);
            }
            return DistKey(number);
        }
        proof {
            if entries.contains(entry@) {
                let i = entries.index_of(entry@);
                assert(entries[i] == entry@);
                assert(self.lookup@.dom().contains(plain_entry(entries[i])));
            }
        }
        let ghost modifiers = self.noise_modifiers@;
        let ghost lookup = self.lookup@;
        if let DistEntry::Noise { reference, modifier: Some(modifier) } = &entry {
            self.noise_modifiers.record(reference.clone(), modifier.clone());
        }
        let key = DistKey(self.entries.len() as u32);
        let ghost said = entry@;
        self.entries.push(entry);
        self.draw_counts.push(0);
        self.lookup.insert(plain_key, key.0);
        proof {
            let after = entries.push(said);
            assert(self@.entries =~= after);
            assert forall|i: int| 0 <= i < after.len() implies self.lookup@.dom().contains(
                plain_entry(#[trigger] after[i]),
            ) && self.lookup@[plain_entry(after[i])] == i by {
                if i < entries.len() {
                    assert(after[i] == entries[i]);
                    if plain_entry(entries[i]) == plain_entry(said) {
                        lemma_plain_entry_is_injective(entries[i], said);
                        assert(entries.contains(said));
                    }
                }
            }
            assert forall|k: EntryKeyModel| #[trigger] self.lookup@.dom().contains(k) implies exists|
                i: int,
            | 0 <= i < after.len() && plain_entry(#[trigger] after[i]) == k by {
                if k == plain_entry(said) {
                    assert(plain_entry(after[entries.len() as int]) == k);
                } else {
                    assert(lookup.dom().contains(k));
                    let i = choose|i: int|
                        0 <= i < entries.len() && plain_entry(#[trigger] entries[i]) == k;
                    assert(plain_entry(after[i]) == k);
                }
            }
            assert forall|r: Seq<char>, m: Seq<char>| #[trigger]
                modifies(after, r, m) <==> modifies(entries, r, m) || said == (
            DistEntryModel::Noise { reference: r, modifier: Some(m) }) by {
                let wanted = DistEntryModel::Noise { reference: r, modifier: Some(m) };
                if entries.contains(wanted) {
                    let i = entries.index_of(wanted);
                    assert(after[i] == wanted);
                }
                if said == wanted {
                    assert(after[entries.len() as int] == wanted);
                }
                if after.contains(wanted) {
                    let i = after.index_of(wanted);
                    if i < entries.len() {
                        assert(entries[i] == wanted);
                    }
                }
            }
            assert forall|r: Seq<char>| #[trigger] self.noise_modifiers@.dom().contains(r)
                <==> modified_references(after).contains(r) by {
                if modified_references(after).contains(r) {
                    let m = choose|m: Seq<char>| #[trigger] modifies(after, r, m);
                    if modifies(entries, r, m) {
                        assert(modified_references(entries).contains(r));
                    }
                }
                if modified_references(entries).contains(r) {
                    let m = choose|m: Seq<char>| #[trigger] modifies(entries, r, m);
                    assert(modifies(after, r, m));
                }
                if said is Noise && said->modifier is Some && said->reference == r {
                    assert(modifies(after, r, said->modifier->0));
                }
            }
            assert(self.noise_modifiers@.dom() =~= modified_references(after));
            assert forall|r: Seq<char>| #[trigger] self.noise_modifiers@.dom().contains(r) implies
                self.noise_modifiers@[r] == modifiers_of(after, r) by {
                if !modifiers.dom().contains(r) {
                    assert forall|m: Seq<char>| !modifies(entries, r, m) by {
                        if modifies(entries, r, m) {
                            assert(modified_references(entries).contains(r));
                        }
                    }
                }
                assert(self.noise_modifiers@[r] =~= modifiers_of(after, r));
            }
        }
        key
    }

    /// Set the total number of subsystem draws for `key`. Called by the build pass after walking the
    /// full circuit to finalize how large each key's sample array needs to be.
    pub fn set_draw_count(&mut self, key: DistKey, count: u32)
        requires
            old(self).wf(),
            key.0 < old(self)@.entries.len(),
        ensures
            final(self).wf(),
            final(self)@.entries == old(self)@.entries,
            final(self)@.draw_counts == old(self)@.draw_counts.update(key.0 as int, count),
    {
        self.draw_counts.set(key.index(), count);
    }

    /// Look up an entry by key.
    pub fn get(&self, key: DistKey) -> (entry: Option<&DistEntry>)
        ensures
            match entry {
                Some(entry) => key.0 < self@.entries.len() && entry@ == self@.entries[key.0 as int],
                None => key.0 >= self@.entries.len(),
            },
    {
        if key.index() < self.entries.len() {
            assert(self@.entries[key.0 as int] == self.entries@[key.0 as int]@);
            Some(&self.entries[key.index()])
        } else {
            None
        }
    }

    /// All entries, in key order.
    pub fn entries(&self) -> (entries: &[DistEntry])
        ensures
            entries_model(entries@) == self@.entries,
    {
        self.entries.as_slice()
    }

    /// The number of entries.
    pub fn len(&self) -> (count: usize)
        ensures
            count == self@.entries.len(),
    {
        self.entries.len()
    }

    /// Whether the table is empty.
    pub fn is_empty(&self) -> (empty: bool)
        ensures
            empty == (self@.entries.len() == 0),
    {
        self.entries.len() == 0
    }

    /// How many subsystem draws each entry needs, in key order.
    pub fn draw_counts(&self) -> (counts: &[u32])
        ensures
            counts@ == self@.draw_counts,
    {
        self.draw_counts.as_slice()
    }

    /// The modifiers of one noise reference in ascending order, or nothing if it has none.
    pub fn noise_modifiers(&self, reference: &String) -> (modifiers: Option<Vec<String>>)
        requires
            self.wf(),
        ensures
            modifiers is Some <==> modified_references(self@.entries).contains(reference@),
            modifiers matches Some(list) ==> text::ascending(text::texts_of(list@))
                && text::texts_of(list@).to_set() == modifiers_of(self@.entries, reference@),
    {
        match self.noise_modifiers.get(reference) {
            Some(list) => Some(text::sorted(list)),
            None => None,
        }
    }

    /// The noise references that have a modifier, in ascending order.
    pub fn modified_noise(&self) -> (references: Vec<String>)
        requires
            self.wf(),
        ensures
            text::ascending(text::texts_of(references@)),
            text::texts_of(references@).to_set() == modified_references(self@.entries),
    {
        text::sorted(self.noise_modifiers.references())
    }

    /// The table's entries as labels, in key order.
    pub fn labels(&self) -> (labels: Vec<String>)
        ensures
            text::texts_of(labels@) == self@.entries.map_values(
                |entry: DistEntryModel| entry.label_text(),
            ),
    {
        let mut labels: Vec<String> = Vec::new();
        let mut i: usize = 0;
        while i < self.entries.len()
            invariant
                i <= self.entries.len(),
                labels.len() == i,
                forall|k: int|
                    0 <= k < i ==> (#[trigger] labels@[k])@ == self@.entries[k].label_text(),
            decreases self.entries.len() - i,
        {
            labels.push(self.entries[i].label());
            i += 1;
        }
        assert(text::texts_of(labels@) =~= self@.entries.map_values(
            |entry: DistEntryModel| entry.label_text(),
        ));
        labels
    }

    /// The table in a few words.
    pub fn to_text(&self) -> (text: String)
        ensures
            text@ == "DistributionTable("@ + text::numbered_text(
                self@.entries.map_values(|entry: DistEntryModel| entry.label_text()),
            ) + ")"@,
    {
        let labels = self.labels();
        assert(labels@.map_values(|item: String| item@) =~= text::texts_of(labels@));
        let mut text = String::from_str("DistributionTable(");
        text.append(text::numbered(&labels).as_str());
        text.append(")");
        text
    }
}

impl Default for DistributionTable {
    fn default() -> (table: Self)
        ensures
            table.wf(),
            table@.entries == Seq::<DistEntryModel>::empty(),
            table@.draw_counts == Seq::<u32>::empty(),
    {
        Self::new()
    }
}

/// What was interned is what the key gives back.
pub proof fn lemma_key_gives_back_its_entry(entries: Seq<DistEntryModel>, entry: DistEntryModel)
    ensures
        entry_slot(entries, entry) < with_entry(entries, entry).len(),
        with_entry(entries, entry)[entry_slot(entries, entry) as int] == entry,
{
    if entries.contains(entry) {
        assert(entries[entries.index_of(entry)] == entry);
    }
}

/// Interning what is already there changes nothing and gives the key it has.
pub proof fn lemma_intern_is_idempotent(entries: Seq<DistEntryModel>, entry: DistEntryModel)
    requires
        entries.no_duplicates(),
    ensures
        with_entry(with_entry(entries, entry), entry) == with_entry(entries, entry),
        entry_slot(with_entry(entries, entry), entry) == entry_slot(entries, entry),
{
    lemma_key_gives_back_its_entry(entries, entry);
    let after = with_entry(entries, entry);
    assert(after[entry_slot(entries, entry) as int] == entry);
    assert(after.contains(entry));
    let i = after.index_of(entry);
    assert(after[i] == entry);
    if !entries.contains(entry) && i < entries.len() {
        assert(entries[i] == entry);
    }
}

/// Interning leaves every key handed out before pointing at the entry it pointed at.
pub proof fn lemma_intern_keeps_earlier_keys(
    entries: Seq<DistEntryModel>,
    entry: DistEntryModel,
    earlier: int,
)
    requires
        0 <= earlier < entries.len(),
    ensures
        earlier < with_entry(entries, entry).len(),
        with_entry(entries, entry)[earlier] == entries[earlier],
{
}

/// Two entries get the same key only if they are the same entry.
pub proof fn lemma_keys_tell_entries_apart(
    entries: Seq<DistEntryModel>,
    first: DistEntryModel,
    second: DistEntryModel,
)
    requires
        entry_slot(entries, first) == entry_slot(with_entry(entries, first), second),
    ensures
        first == second,
{
    lemma_key_gives_back_its_entry(entries, first);
    lemma_key_gives_back_its_entry(with_entry(entries, first), second);
}

} // verus!
