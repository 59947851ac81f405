//! Hash tables keyed by numbers and by lists of numbers.

use vstd::prelude::*;

verus! {

/// A set of numbers, held in a `hashbrown` hash set.
#[verifier::external_body]
pub struct IndexSet {
    inner: hashbrown::HashSet<usize>,
}

/// The numbers a set holds.
pub uninterp spec fn index_set_items(set: IndexSet) -> Set<usize>;

impl View for IndexSet {
    type V = Set<usize>;

    open spec fn view(&self) -> Set<usize> {
        index_set_items(*self)
    }
}

impl IndexSet {
    /// `hashbrown::HashSet::new`: the new set holds nothing.
    #[verifier::external_body]
    pub(crate) fn new() -> (set: Self)
        ensures
            index_set_items(set) == Set::<usize>::empty(),
    {
        IndexSet { inner: hashbrown::HashSet::new() }
    }

    /// `hashbrown::HashSet::insert`: the set gains the number, and the answer is whether it was new.
    #[verifier::external_body]
    pub(crate) fn insert(&mut self, item: usize) -> (fresh: bool)
        ensures
            index_set_items(*final(self)) == index_set_items(*old(self)).insert(item),
            fresh == !index_set_items(*old(self)).contains(item),
    {
        self.inner.insert(item)
    }

    /// `hashbrown::HashSet::contains`: whether the number is in the set.
    #[verifier::external_body]
    pub(crate) fn contains(&self, item: usize) -> (found: bool)
        ensures
            found == index_set_items(*self).contains(item),
    {
        self.inner.contains(&item)
    }

    /// `hashbrown::HashSet::remove`: the set loses the number, and the answer is whether it was there.
    #[verifier::external_body]
    pub(crate) fn remove(&mut self, item: usize) -> (found: bool)
        ensures
            index_set_items(*final(self)) == index_set_items(*old(self)).remove(item),
            found == index_set_items(*old(self)).contains(item),
    {
        self.inner.remove(&item)
    }
}

/// A number for each of a collection of numbers, held in a `hashbrown` hash map.
#[verifier::external_body]
pub struct IndexMap {
    inner: hashbrown::HashMap<usize, usize>,
}

/// The numbers a map holds, by key.
pub uninterp spec fn index_map_items(map: IndexMap) -> Map<usize, usize>;

impl View for IndexMap {
    type V = Map<usize, usize>;

    open spec fn view(&self) -> Map<usize, usize> {
        index_map_items(*self)
    }
}

impl IndexMap {
    /// `hashbrown::HashMap::new`: the new map holds nothing.
    #[verifier::external_body]
    pub(crate) fn new() -> (map: Self)
        ensures
            index_map_items(map).dom() == Set::<usize>::empty(),
    {
        IndexMap { inner: hashbrown::HashMap::new() }
    }

    /// `hashbrown::HashMap::get`: the number filed under a key, if there is one.
    #[verifier::external_body]
    pub(crate) fn get(&self, key: usize) -> (found: Option<usize>)
        ensures
            found == (if index_map_items(*self).dom().contains(key) {
                Some(index_map_items(*self)[key])
            } else {
                None
            }),
    {
        self.inner.get(&key).copied()
    }

    /// `hashbrown::HashMap::insert`: the number is filed under the key, in place of any filed there
    /// before.
    #[verifier::external_body]
    pub(crate) fn insert(&mut self, key: usize, number: usize)
        ensures
            index_map_items(*final(self)) == index_map_items(*old(self)).insert(key, number),
    {
        self.inner.insert(key, number);
    }
}

/// The plain form of a distribution-table entry: which kind of entry, which variant within the kind,
/// the name it refers to, and an optional second name.
pub type EntryKey = (u8, u8, String, Option<String>);

/// What a plain entry says.
pub type EntryKeyModel = (u8, u8, Seq<char>, Option<Seq<char>>);

/// What a plain entry says.
pub open spec fn entry_key_model(key: EntryKey) -> EntryKeyModel {
    (
        key.0,
        key.1,
        key.2@,
        match key.3 {
            Some(text) => Some(text@),
            None => None,
        },
    )
}

/// A number for each of a collection of plain entries, held in a `hashbrown` hash map.
#[verifier::external_body]
pub struct EntryLookup {
    inner: hashbrown::HashMap<EntryKey, u32>,
}

/// The numbers a lookup holds, by what the entries say.
pub uninterp spec fn entry_lookup_items(lookup: EntryLookup) -> Map<EntryKeyModel, u32>;

impl View for EntryLookup {
    type V = Map<EntryKeyModel, u32>;

    open spec fn view(&self) -> Map<EntryKeyModel, u32> {
        entry_lookup_items(*self)
    }
}

impl EntryLookup {
    /// `hashbrown::HashMap::new`: the new map holds nothing.
    #[verifier::external_body]
    pub(crate) fn new() -> (lookup: Self)
        ensures
            entry_lookup_items(lookup).dom() == Set::<EntryKeyModel>::empty(),
    {
        EntryLookup { inner: hashbrown::HashMap::new() }
    }

    /// `hashbrown::HashMap::get`: the number filed under an equal entry, if there is one. Entries are
    /// equal when their numbers and their texts are.
    #[verifier::external_body]
    pub(crate) fn get(&self, key: &EntryKey) -> (found: Option<u32>)
        ensures
            found == (if entry_lookup_items(*self).dom().contains(entry_key_model(*key)) {
                Some(entry_lookup_items(*self)[entry_key_model(*key)])
            } else {
                None
            }),
    {
        self.inner.get(key).copied()
    }

    /// `hashbrown::HashMap::insert`: the number is filed under the entry, in place of any filed there
    /// before.
    #[verifier::external_body]
    pub(crate) fn insert(&mut self, key: EntryKey, number: u32)
        ensures
            entry_lookup_items(*final(self)) == entry_lookup_items(*old(self)).insert(
                entry_key_model(key),
                number,
            ),
    {
        self.inner.insert(key, number);
    }
}

/// The modifiers recorded for each reference, held in a `hashbrown` hash map of hash sets.
#[verifier::external_body]
pub struct NoiseModifiers {
    inner: hashbrown::HashMap<String, hashbrown::HashSet<String>>,
}

/// The modifiers recorded, by reference.
pub uninterp spec fn noise_modifier_items(modifiers: NoiseModifiers) -> Map<
    Seq<char>,
    Set<Seq<char>>,
>;

impl View for NoiseModifiers {
    type V = Map<Seq<char>, Set<Seq<char>>>;

    open spec fn view(&self) -> Map<Seq<char>, Set<Seq<char>>> {
        noise_modifier_items(*self)
    }
}

/// What a map of sets holds once an item is put into the set filed under a key, a key without a set
/// getting an empty one first.
pub open spec fn with_member(
    items: Map<Seq<char>, Set<Seq<char>>>,
    key: Seq<char>,
    member: Seq<char>,
) -> Map<Seq<char>, Set<Seq<char>>> {
    items.insert(
        key,
        (if items.dom().contains(key) {
            items[key]
        } else {
            Set::empty()
        }).insert(member),
    )
}

impl NoiseModifiers {
    /// `hashbrown::HashMap::new`: the new map holds nothing.
    #[verifier::external_body]
    pub(crate) fn new() -> (modifiers: Self)
        ensures
            noise_modifier_items(modifiers).dom() == Set::<Seq<char>>::empty(),
    {
        NoiseModifiers { inner: hashbrown::HashMap::new() }
    }

    /// `hashbrown::HashMap::entry` with `or_default`, then `hashbrown::HashSet::insert`: the modifier
    /// joins the set filed under the reference, which is created empty where there was none.
    #[verifier::external_body]
    pub(crate) fn record(&mut self, reference: String, modifier: String)
        ensures
            noise_modifier_items(*final(self)) == with_member(
                noise_modifier_items(*old(self)),
                reference@,
                modifier@,
            ),
    {
        self.inner.entry(reference).or_default().insert(modifier);
    }

    /// `hashbrown::HashMap::get`, then `hashbrown::HashSet::iter`: the modifiers filed under a
    /// reference, each once, in no particular order, or nothing where none are.
    #[verifier::external_body]
    pub(crate) fn get(&self, reference: &String) -> (found: Option<Vec<String>>)
        ensures
            found is Some <==> noise_modifier_items(*self).dom().contains(reference@),
            found matches Some(list) ==> crate::text::texts_of(list@).no_duplicates()
                && crate::text::texts_of(list@).to_set() == noise_modifier_items(*self)[reference@],
    {
        self.inner.get(reference).map(|set| set.iter().cloned().collect())
    }

    /// `hashbrown::HashMap::keys`: the references with a set of modifiers, each once, in no particular
    /// order.
    #[verifier::external_body]
    pub(crate) fn references(&self) -> (list: Vec<String>)
        ensures
            crate::text::texts_of(list@).no_duplicates(),
            crate::text::texts_of(list@).to_set() == noise_modifier_items(*self).dom(),
    {
        self.inner.keys().cloned().collect()
    }
}

/// The plain form of an expression: its text, its symbols as names and identities, and the number it
/// is bound to.
pub type ExpressionKey = (String, Vec<(String, u128)>, (u8, u64, u64));

/// What a plain expression says.
pub type ExpressionKeyModel = (Seq<char>, Seq<(Seq<char>, u128)>, (u8, u64, u64));

/// What a plain expression says.
pub open spec fn expression_key_model(key: ExpressionKey) -> ExpressionKeyModel {
    (key.0@, key.1@.map_values(|symbol: (String, u128)| (symbol.0@, symbol.1)), key.2)
}

/// A number for each of a collection of plain expressions, held in a `hashbrown` hash map.
#[verifier::external_body]
pub struct ExpressionLookup {
    inner: hashbrown::HashMap<ExpressionKey, u32>,
}

/// The numbers a lookup holds, by what the expressions say.
pub uninterp spec fn expression_lookup_items(lookup: ExpressionLookup) -> Map<
    ExpressionKeyModel,
    u32,
>;

impl View for ExpressionLookup {
    type V = Map<ExpressionKeyModel, u32>;

    open spec fn view(&self) -> Map<ExpressionKeyModel, u32> {
        expression_lookup_items(*self)
    }
}

impl ExpressionLookup {
    /// `hashbrown::HashMap::new`: the new map holds nothing.
    #[verifier::external_body]
    pub(crate) fn new() -> (lookup: Self)
        ensures
            expression_lookup_items(lookup).dom() == Set::<ExpressionKeyModel>::empty(),
    {
        ExpressionLookup { inner: hashbrown::HashMap::new() }
    }

    /// `hashbrown::HashMap::get`: the number filed under an equal expression, if there is one.
    /// Expressions are equal when their texts, their symbols in order and their values are.
    #[verifier::external_body]
    pub(crate) fn get(&self, key: &ExpressionKey) -> (found: Option<u32>)
        ensures
            found == (if expression_lookup_items(*self).dom().contains(expression_key_model(*key)) {
                Some(expression_lookup_items(*self)[expression_key_model(*key)])
            } else {
                None
            }),
    {
        self.inner.get(key).copied()
    }

    /// `hashbrown::HashMap::insert`: the number is filed under the expression, in place of any filed
    /// there before.
    #[verifier::external_body]
    pub(crate) fn insert(&mut self, key: ExpressionKey, number: u32)
        ensures
            expression_lookup_items(*final(self)) == expression_lookup_items(*old(self)).insert(
                expression_key_model(key),
                number,
            ),
    {
        self.inner.insert(key, number);
    }
}

/// A number for each of a collection of quadruples of numbers, held in a `hashbrown` hash map.
#[verifier::external_body]
pub struct QuadLookup {
    inner: hashbrown::HashMap<(usize, usize, u8, u8), u32>,
}

/// The numbers a lookup holds, by key.
pub uninterp spec fn quad_lookup_items(lookup: QuadLookup) -> Map<(usize, usize, u8, u8), u32>;

impl View for QuadLookup {
    type V = Map<(usize, usize, u8, u8), u32>;

    open spec fn view(&self) -> Map<(usize, usize, u8, u8), u32> {
        quad_lookup_items(*self)
    }
}

impl QuadLookup {
    /// `hashbrown::HashMap::new`: the new map holds nothing.
    #[verifier::external_body]
    pub(crate) fn new() -> (lookup: Self)
        ensures
            quad_lookup_items(lookup).dom() == Set::<(usize, usize, u8, u8)>::empty(),
    {
        QuadLookup { inner: hashbrown::HashMap::new() }
    }

    /// `hashbrown::HashMap::get`: the number filed under a key, if there is one.
    #[verifier::external_body]
    pub(crate) fn get(&self, key: (usize, usize, u8, u8)) -> (found: Option<u32>)
        ensures
            found == (if quad_lookup_items(*self).dom().contains(key) {
                Some(quad_lookup_items(*self)[key])
            } else {
                None
            }),
    {
        self.inner.get(&key).copied()
    }

    /// `hashbrown::HashMap::insert`: the number is filed under the key, in place of any filed there
    /// before.
    #[verifier::external_body]
    pub(crate) fn insert(&mut self, key: (usize, usize, u8, u8), number: u32)
        ensures
            quad_lookup_items(*final(self)) == quad_lookup_items(*old(self)).insert(key, number),
    {
        self.inner.insert(key, number);
    }
}

/// A number for each of a collection of paths, a path being a list of numbers, held in a `hashbrown` hash
/// map.
#[verifier::external_body]
pub struct PathMap {
    inner: hashbrown::HashMap<Vec<usize>, usize>,
}

/// The numbers a map holds, by path.
pub uninterp spec fn path_map_items(map: PathMap) -> Map<Seq<usize>, usize>;

impl View for PathMap {
    type V = Map<Seq<usize>, usize>;

    open spec fn view(&self) -> Map<Seq<usize>, usize> {
        path_map_items(*self)
    }
}

impl PathMap {
    /// `hashbrown::HashMap::new`: the new map holds nothing.
    #[verifier::external_body]
    pub(crate) fn new() -> (map: Self)
        ensures
            path_map_items(map).dom() == Set::<Seq<usize>>::empty(),
    {
        PathMap { inner: hashbrown::HashMap::new() }
    }

    /// `hashbrown::HashMap::insert`: the number is filed under the path, and any filed there before is
    /// handed back.
    #[verifier::external_body]
    pub(crate) fn insert(&mut self, path: Vec<usize>, number: usize) -> (before: Option<usize>)
        ensures
            path_map_items(*final(self)) == path_map_items(*old(self)).insert(path@, number),
            before == (if path_map_items(*old(self)).dom().contains(path@) {
                Some(path_map_items(*old(self))[path@])
            } else {
                None
            }),
    {
        self.inner.insert(path, number)
    }

    /// `hashbrown::HashMap::remove`: the number filed under a path, if there is one, leaves the map and is
    /// handed back.
    #[verifier::external_body]
    pub(crate) fn remove(&mut self, path: &Vec<usize>) -> (found: Option<usize>)
        ensures
            path_map_items(*final(self)) == path_map_items(*old(self)).remove(path@),
            found == (if path_map_items(*old(self)).dom().contains(path@) {
                Some(path_map_items(*old(self))[path@])
            } else {
                None
            }),
    {
        self.inner.remove(path)
    }

    /// `hashbrown::HashMap::contains_key`: whether a number is filed under a path.
    #[verifier::external_body]
    pub(crate) fn contains(&self, path: &Vec<usize>) -> (found: bool)
        ensures
            found == path_map_items(*self).dom().contains(path@),
    {
        self.inner.contains_key(path)
    }

    /// `hashbrown::HashMap::len`: how many paths have a number filed under them.
    #[verifier::external_body]
    pub(crate) fn len(&self) -> (count: usize)
        ensures
            count == path_map_items(*self).dom().len(),
    {
        self.inner.len()
    }
}

/// A set of paths, a path being a list of numbers, held in a `hashbrown` hash set.
#[verifier::external_body]
pub struct PathSet {
    inner: hashbrown::HashSet<Vec<usize>>,
}

/// The paths a set holds.
pub uninterp spec fn path_set_items(set: PathSet) -> Set<Seq<usize>>;

impl View for PathSet {
    type V = Set<Seq<usize>>;

    open spec fn view(&self) -> Set<Seq<usize>> {
        path_set_items(*self)
    }
}

impl PathSet {
    /// `hashbrown::HashSet::new`: the new set holds nothing.
    #[verifier::external_body]
    pub(crate) fn new() -> (set: Self)
        ensures
            path_set_items(set) == Set::<Seq<usize>>::empty(),
    {
        PathSet { inner: hashbrown::HashSet::new() }
    }

    /// `hashbrown::HashSet::insert`: the set gains the path.
    #[verifier::external_body]
    pub(crate) fn insert(&mut self, path: Vec<usize>)
        ensures
            path_set_items(*final(self)) == path_set_items(*old(self)).insert(path@),
    {
        self.inner.insert(path);
    }

    /// `hashbrown::HashSet::contains`: whether the path is in the set.
    #[verifier::external_body]
    pub(crate) fn contains(&self, path: &Vec<usize>) -> (found: bool)
        ensures
            found == path_set_items(*self).contains(path@),
    {
        self.inner.contains(path)
    }
}

} // verus!
