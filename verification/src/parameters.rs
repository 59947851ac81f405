//! The symbolic angles absorbed into collectors, and the symbols a caller must bind.
//!
//! Bound angles are not here: they travel inline on
//! [`AbsorbedGate`](crate::virtual_flow_graph::AbsorbedGate). This table answers the question no
//! individual gate can: **what must the caller supply before drawing.** [`ParameterTable::free`] is that
//! list.
//!
//! An *output* of lowering, since parameters are minted there, unlike
//! [`DistributionTable`](crate::distributions::DistributionTable), which build produces.

use vstd::prelude::*;
use vstd::string::*;

use crate::collections::ExpressionKey;
use crate::collections::ExpressionKeyModel;
use crate::collections::ExpressionLookup;
use crate::text;

verus! {

/// A key into a [`ParameterTable`].
#[derive(Debug, Clone, Copy, PartialEq, Eq, Structural, Hash, PartialOrd, Ord)]
pub struct ParamKey(pub u32);

impl ParamKey {
    /// The index this key refers to.
    pub fn index(&self) -> (index: usize)
        ensures
            index == self.0,
    {
        self.0 as usize
    }
}

/// A free symbol of an expression: the full name a caller binds it by, and its identity.
///
/// Two symbols of one name are two symbols; the identity is what tells them apart.
#[derive(Debug, PartialEq, Eq)]
pub struct Symbol {
    pub fullname: String,
    pub uuid: u128,
}

/// What a symbol is: its full name and its identity.
pub type SymbolModel = (Seq<char>, u128);

impl View for Symbol {
    type V = SymbolModel;

    open spec fn view(&self) -> SymbolModel {
        (self.fullname@, self.uuid)
    }
}

impl Clone for Symbol {
    fn clone(&self) -> (copy: Self)
        ensures
            copy == *self,
    {
        Symbol { fullname: self.fullname.clone(), uuid: self.uuid }
    }
}

/// What an expression without free symbols comes to. Numbers are kept as the bit patterns of floats.
#[derive(Debug, Clone, Copy, PartialEq, Eq, Structural, Hash)]
pub enum Value {
    Real(u64),
    /// An integer, as the bit pattern of the float it converts to.
    Int(u64),
    Complex(u64, u64),
    /// The expression has no value, either because it has free symbols or because evaluating it fails.
    Undefined,
}

/// An angle as an expression over free symbols.
#[derive(Debug, Eq)]
pub struct ParameterExpression {
    /// How the expression reads.
    pub text: String,
    /// The free symbols in it, in no particular order: an expression is the same however they are listed.
    pub symbols: Vec<Symbol>,
    /// What it comes to if there are none.
    pub value: Value,
}

/// What an expression says.
pub struct ExpressionModel {
    pub text: Seq<char>,
    pub symbols: Set<SymbolModel>,
    pub value: Value,
}

/// The symbols of a list, one by one.
pub open spec fn symbols_model(symbols: Seq<Symbol>) -> Seq<SymbolModel> {
    symbols.map_values(|symbol: Symbol| symbol@)
}

impl View for ParameterExpression {
    type V = ExpressionModel;

    open spec fn view(&self) -> ExpressionModel {
        ExpressionModel {
            text: self.text@,
            symbols: symbols_model(self.symbols@).to_set(),
            value: self.value,
        }
    }
}

fn clone_symbols(symbols: &Vec<Symbol>) -> (copy: Vec<Symbol>)
    ensures
        copy@ == symbols@,
{
    let mut copy: Vec<Symbol> = Vec::new();
    let mut i: usize = 0;
    while i < symbols.len()
        invariant
            i <= symbols.len(),
            copy@ == symbols@.take(i as int),
        decreases symbols.len() - i,
    {
        copy.push(symbols[i].clone());
        assert(copy@ =~= symbols@.take(i + 1));
        i += 1;
    }
    assert(symbols@.take(i as int) =~= symbols@);
    copy
}

impl vstd::std_specs::cmp::PartialEqSpecImpl for ParameterExpression {
    open spec fn obeys_eq_spec() -> bool {
        true
    }

    open spec fn eq_spec(&self, other: &Self) -> bool {
        self@ == other@
    }
}

impl PartialEq for ParameterExpression {
    fn eq(&self, other: &Self) -> (same: bool) {
        let left = in_order(&self.symbols);
        let right = in_order(&other.symbols);
        let same_symbols = same_list(&left, &right);
        proof {
            if self@.symbols == other@.symbols {
                lemma_ascending_list_is_unique(symbols_model(left@), symbols_model(right@));
            }
        }
        text::same(self.text.as_str(), other.text.as_str()) && same_symbols && self.value == other.value
    }
}

/// Whether two lists of symbols are the same.
fn same_list(left: &Vec<Symbol>, right: &Vec<Symbol>) -> (same: bool)
    ensures
        same == (symbols_model(left@) == symbols_model(right@)),
{
    if left.len() != right.len() {
        assert(symbols_model(left@).len() != symbols_model(right@).len());
        return false;
    }
    let mut i: usize = 0;
    while i < left.len()
        invariant
            i <= left.len(),
            left.len() == right.len(),
            forall|k: int| 0 <= k < i ==> (#[trigger] left@[k])@ == right@[k]@,
        decreases left.len() - i,
    {
        if !text::same(left[i].fullname.as_str(), right[i].fullname.as_str()) || left[i].uuid
            != right[i].uuid {
            assert(symbols_model(left@)[i as int] != symbols_model(right@)[i as int]);
            return false;
        }
        i += 1;
    }
    assert(symbols_model(left@) =~= symbols_model(right@));
    true
}

impl Clone for ParameterExpression {
    fn clone(&self) -> (copy: Self)
        ensures
            copy@ == self@,
    {
        ParameterExpression {
            text: self.text.clone(),
            symbols: clone_symbols(&self.symbols),
            value: self.value,
        }
    }
}

impl ParameterExpression {
    /// The expression that is one symbol and nothing else.
    pub fn from_symbol(symbol: Symbol) -> (expression: Self)
        ensures
            expression@.text == symbol@.0,
            expression@.symbols == set![symbol@],
            expression@.value == Value::Undefined,
    {
        let text = symbol.fullname.clone();
        let ghost said = symbol@;
        let mut symbols: Vec<Symbol> = Vec::new();
        symbols.push(symbol);
        proof {
            assert(symbols_model(symbols@) =~= seq![said]);
            assert(seq![said].contains(said)) by {
                assert(seq![said][0] == said);
            }
            assert(symbols_model(symbols@).to_set() =~= set![said]);
        }
        ParameterExpression { text, symbols, value: Value::Undefined }
    }

    /// How many free symbols the expression has.
    pub fn num_symbols(&self) -> (count: usize)
        ensures
            count == self@.symbols.len(),
            self@.symbols.finite(),
    {
        let listed = in_order(&self.symbols);
        proof {
            let list = symbols_model(listed@);
            assert(list.no_duplicates()) by {
                assert forall|i: int, j: int|
                    0 <= i < list.len() && 0 <= j < list.len() && i != j implies list[i] != list[j] by {
                    lemma_symbol_order(list[i], list[j], list[i]);
                }
            }
            list.unique_seq_to_set();
        }
        listed.len()
    }
}

/// A parameter of an instruction.
#[derive(Debug, PartialEq, Eq)]
pub enum Param {
    /// A number, as the bit pattern of a float.
    Float(u64),
    /// An expression, symbolic or not.
    Expression(ParameterExpression),
    /// One of the angles a template leaves open, by its index in the template's parameter vector.
    Template(usize),
    /// Something that is not an angle at all, known by a handle to whoever owns it.
    Obj(u64),
}

/// What a parameter says.
pub enum ParamModel {
    Float(u64),
    Expression(ExpressionModel),
    Template(usize),
    Obj(u64),
}

impl View for Param {
    type V = ParamModel;

    open spec fn view(&self) -> ParamModel {
        match self {
            Param::Float(bits) => ParamModel::Float(*bits),
            Param::Expression(expression) => ParamModel::Expression(expression@),
            Param::Template(index) => ParamModel::Template(*index),
            Param::Obj(handle) => ParamModel::Obj(*handle),
        }
    }
}

impl Clone for Param {
    fn clone(&self) -> (copy: Self)
        ensures
            copy@ == self@,
    {
        match self {
            Param::Float(bits) => Param::Float(*bits),
            Param::Expression(expression) => Param::Expression(expression.clone()),
            Param::Template(index) => Param::Template(*index),
            Param::Obj(handle) => Param::Obj(*handle),
        }
    }
}

/// The parameters of a list, one by one.
pub open spec fn params_model(params: Seq<Param>) -> Seq<ParamModel> {
    params.map_values(|param: Param| param@)
}

/// A copy of a list of parameters.
pub fn clone_params(params: &Vec<Param>) -> (copy: Vec<Param>)
    ensures
        params_model(copy@) == params_model(params@),
{
    let mut copy: Vec<Param> = Vec::new();
    let mut i: usize = 0;
    while i < params.len()
        invariant
            i <= params.len(),
            copy.len() == i,
            forall|k: int| 0 <= k < i ==> (#[trigger] copy@[k])@ == params@[k]@,
        decreases params.len() - i,
    {
        copy.push(params[i].clone());
        i += 1;
    }
    assert(params_model(copy@) =~= params_model(params@));
    copy
}

/// The name of a template's open angle, zero-padded so dictionary order is numeric order up to ten
/// thousand of them.
pub open spec fn template_name_text(index: nat) -> Seq<char> {
    "p"@ + text::padded_text(index)
}

/// The name of a template's open angle.
pub fn template_name(index: usize) -> (name: String)
    ensures
        name@ == template_name_text(index as nat),
{
    let mut name = String::from_str("p");
    name.append(text::padded(index).as_str());
    name
}

/// The names of a template's open angles come in dictionary order as their indices do, below ten thousand and
/// wherever two indices have as many digits. Beyond that a lower index comes first exactly when it is no more than
/// the higher one cut to as many digits.
pub proof fn lemma_template_names_in_order(left: nat, right: nat)
    requires
        left < right,
    ensures
        right < 10000 ==> text::text_before(template_name_text(left), template_name_text(right)),
        text::text_before(template_name_text(left), template_name_text(right)) <==> left
            <= text::shortened(
            right,
            (text::padded_width(right) - text::padded_width(left)) as nat,
        ),
{
    text::lemma_padded_numbers_in_order(left, right);
    text::lemma_starts_decide("p"@, "p"@, text::padded_text(left), text::padded_text(right));
}

/// The order two symbols are listed in: by full name, then by identity.
///
/// The full name, since that is what a caller binds by. The identity keeps two symbols of one name both
/// listed.
pub open spec fn symbol_before(left: SymbolModel, right: SymbolModel) -> bool {
    text::text_before(left.0, right.0) || (left.0 == right.0 && left.1 < right.1)
}

/// Whether a list of symbols is in strictly ascending order.
pub open spec fn symbols_ascending(symbols: Seq<SymbolModel>) -> bool {
    forall|i: int, j: int|
        0 <= i < j < symbols.len() ==> symbol_before(#[trigger] symbols[i], #[trigger] symbols[j])
}

/// The full names of a list of symbols.
pub open spec fn symbol_names(symbols: Seq<SymbolModel>) -> Seq<Seq<char>> {
    symbols.map_values(|symbol: SymbolModel| symbol.0)
}

/// Every symbol appearing in any of the entries.
pub open spec fn symbols_of(entries: Seq<ExpressionModel>) -> Set<SymbolModel> {
    Set::new(
        |symbol: SymbolModel|
            exists|i: int|
                0 <= i < entries.len() && (#[trigger] entries[i]).symbols.contains(symbol),
    )
}

proof fn lemma_symbol_order(a: SymbolModel, b: SymbolModel, c: SymbolModel)
    ensures
        symbol_before(a, b) && symbol_before(b, c) ==> symbol_before(a, c),
        !(symbol_before(a, b) && symbol_before(b, a)),
        !symbol_before(a, a),
        symbol_before(a, b) || symbol_before(b, a) || a == b,
{
    text::lemma_before_is_asymmetric(a.0, b.0);
    text::lemma_before_is_total(a.0, b.0);
    if text::text_before(a.0, b.0) && text::text_before(b.0, c.0) {
        text::lemma_before_is_transitive(a.0, b.0, c.0);
    }
}

/// Whether one symbol is listed before another.
fn listed_before(left: &Symbol, right: &Symbol) -> (earlier: bool)
    ensures
        earlier == symbol_before(left@, right@),
{
    proof {
        text::lemma_before_is_asymmetric(left@.0, right@.0);
        text::lemma_before_is_total(left@.0, right@.0);
    }
    if text::before(left.fullname.as_str(), right.fullname.as_str()) {
        true
    } else if text::before(right.fullname.as_str(), left.fullname.as_str()) {
        false
    } else {
        left.uuid < right.uuid
    }
}

/// Put one symbol into an ascending list, unless it is in it.
fn list_symbol(list: &mut Vec<Symbol>, symbol: &Symbol)
    requires
        symbols_ascending(symbols_model(old(list)@)),
    ensures
        symbols_ascending(symbols_model(final(list)@)),
        forall|other: SymbolModel| #[trigger]
            symbols_model(final(list)@).contains(other) <==> symbols_model(old(list)@).contains(other)
                || other == symbol@,
{
    let ghost given = symbols_model(list@);
    let mut low: usize = 0;
    let mut high: usize = list.len();
    while low < high
        invariant
            low <= high <= list.len(),
            given == symbols_model(list@),
            list@ == old(list)@,
            symbols_ascending(given),
            forall|i: int| 0 <= i < low ==> symbol_before(#[trigger] given[i], symbol@),
            forall|i: int| high <= i < given.len() ==> symbol_before(symbol@, #[trigger] given[i]),
        decreases high - low,
    {
        let middle: usize = low + (high - low) / 2;
        assert(given[middle as int] == list@[middle as int]@);
        if listed_before(&list[middle], symbol) {
            proof {
                assert forall|i: int| 0 <= i < middle + 1 implies symbol_before(
                    #[trigger] given[i],
                    symbol@,
                ) by {
                    lemma_symbol_order(given[i], given[middle as int], symbol@);
                }
            }
            low = middle + 1;
        } else if listed_before(symbol, &list[middle]) {
            proof {
                assert forall|i: int| middle <= i < given.len() implies symbol_before(
                    symbol@,
                    #[trigger] given[i],
                ) by {
                    lemma_symbol_order(symbol@, given[middle as int], given[i]);
                }
            }
            high = middle;
        } else {
            proof {
                lemma_symbol_order(given[middle as int], symbol@, symbol@);
                assert(given.contains(symbol@));
            }
            return ;
        }
    }
    list.insert(low, symbol.clone());
    proof {
        let after = symbols_model(list@);
        assert(after =~= given.insert(low as int, symbol@));
        assert forall|i: int, j: int| 0 <= i < j < after.len() implies symbol_before(
            #[trigger] after[i],
            #[trigger] after[j],
        ) by {
            if i < low && j < low {
                assert(symbol_before(given[i], given[j]));
            } else if i < low && j > low {
                assert(symbol_before(given[i], given[j - 1]));
            } else if i > low {
                assert(symbol_before(given[i - 1], given[j - 1]));
            } else if i == low {
                assert(symbol_before(symbol@, given[j - 1]));
            }
        }
        assert forall|other: SymbolModel| #[trigger]
            after.contains(other) <==> given.contains(other) || other == symbol@ by {
            if after.contains(other) {
                let k = after.index_of(other);
                if k < low {
                    assert(given[k] == other);
                } else if k > low {
                    assert(given[k - 1] == other);
                }
            }
            if given.contains(other) {
                let k = given.index_of(other);
                if k < low {
                    assert(after[k] == other);
                } else {
                    assert(after[k + 1] == other);
                }
            }
            assert(after[low as int] == symbol@);
        }
    }
}

/// The symbols of a list in ascending order, each once.
fn in_order(symbols: &Vec<Symbol>) -> (list: Vec<Symbol>)
    ensures
        symbols_ascending(symbols_model(list@)),
        symbols_model(list@).to_set() == symbols_model(symbols@).to_set(),
{
    let ghost given = symbols_model(symbols@);
    let mut list: Vec<Symbol> = Vec::new();
    let mut i: usize = 0;
    while i < symbols.len()
        invariant
            i <= symbols.len(),
            given == symbols_model(symbols@),
            symbols_ascending(symbols_model(list@)),
            forall|symbol: SymbolModel| #[trigger]
                symbols_model(list@).contains(symbol) <==> given.take(i as int).contains(symbol),
        decreases symbols.len() - i,
    {
        list_symbol(&mut list, &symbols[i]);
        proof {
            lemma_take_contains(given, i as int);
        }
        i += 1;
    }
    proof {
        assert(given.take(i as int) =~= given);
        assert forall|symbol: SymbolModel|
            symbols_model(list@).to_set().contains(symbol) <==> given.to_set().contains(symbol) by {
            assert(symbols_model(list@).contains(symbol) <==> given.contains(symbol));
        }
        assert(symbols_model(list@).to_set() =~= given.to_set());
    }
    list
}

/// What is among the first of some symbols once one more of them is counted in.
proof fn lemma_take_contains(symbols: Seq<SymbolModel>, i: int)
    requires
        0 <= i < symbols.len(),
    ensures
        forall|symbol: SymbolModel| #[trigger]
            symbols.take(i + 1).contains(symbol) <==> symbols.take(i).contains(symbol) || symbol
                == symbols[i],
{
    let done = symbols.take(i);
    let next = symbols.take(i + 1);
    assert(next =~= done.push(symbols[i]));
    assert forall|symbol: SymbolModel| #[trigger]
        next.contains(symbol) <==> done.contains(symbol) || symbol == symbols[i] by {
        if done.contains(symbol) {
            assert(next[done.index_of(symbol)] == symbol);
        }
        assert(next[i] == symbols[i]);
        if next.contains(symbol) {
            let k = next.index_of(symbol);
            if k < i {
                assert(done[k] == symbol);
            }
        }
    }
}

/// Whether a list is that of a set of symbols, in ascending order.
spec fn lists(list: Seq<SymbolModel>, symbols: Set<SymbolModel>) -> bool {
    symbols_ascending(list) && list.to_set() == symbols
}

/// A set of symbols as a list, in ascending order.
spec fn listed(symbols: Set<SymbolModel>) -> Seq<SymbolModel> {
    choose|list: Seq<SymbolModel>| lists(list, symbols)
}

spec fn value_plain(value: Value) -> (u8, u64, u64) {
    match value {
        Value::Real(bits) => (0, bits, 0),
        Value::Int(bits) => (1, bits, 0),
        Value::Complex(re, im) => (2, re, im),
        Value::Undefined => (3, 0, 0),
    }
}

/// The plain form an expression is looked up by.
spec fn plain_expression(expression: ExpressionModel) -> ExpressionKeyModel {
    (expression.text, listed(expression.symbols), value_plain(expression.value))
}

proof fn lemma_plain_expression_is_injective(left: ExpressionModel, right: ExpressionModel)
    requires
        plain_expression(left) == plain_expression(right),
        lists(listed(left.symbols), left.symbols),
        lists(listed(right.symbols), right.symbols),
    ensures
        left == right,
{
}

fn plain(expression: &ParameterExpression) -> (key: ExpressionKey)
    ensures
        crate::collections::expression_key_model(key) == plain_expression(expression@),
        lists(listed(expression@.symbols), expression@.symbols),
{
    let ordered = in_order(&expression.symbols);
    let ghost list = symbols_model(ordered@);
    proof {
        assert(lists(list, expression@.symbols));
        lemma_ascending_list_is_unique(list, listed(expression@.symbols));
    }
    let mut symbols: Vec<(String, u128)> = Vec::new();
    let mut i: usize = 0;
    while i < ordered.len()
        invariant
            i <= ordered.len(),
            list == symbols_model(ordered@),
            symbols.len() == i,
            forall|k: int|
                0 <= k < i ==> (#[trigger] symbols@[k]).0@ == list[k].0 && symbols@[k].1
                    == list[k].1,
        decreases ordered.len() - i,
    {
        symbols.push((ordered[i].fullname.clone(), ordered[i].uuid));
        i += 1;
    }
    let value: (u8, u64, u64) = match expression.value {
        Value::Real(bits) => (0, bits, 0),
        Value::Int(bits) => (1, bits, 0),
        Value::Complex(re, im) => (2, re, im),
        Value::Undefined => (3, 0, 0),
    };
    assert(symbols@.map_values(|symbol: (String, u128)| (symbol.0@, symbol.1)) =~= list);
    (expression.text.clone(), symbols, value)
}

/// Where an expression stands in a table, or would stand once added.
pub open spec fn expression_slot(entries: Seq<ExpressionModel>, entry: ExpressionModel) -> nat {
    if entries.contains(entry) {
        entries.index_of(entry) as nat
    } else {
        entries.len()
    }
}

/// A table's entries once an expression is in it: as they were if it already was.
pub open spec fn with_expression(entries: Seq<ExpressionModel>, entry: ExpressionModel) -> Seq<
    ExpressionModel,
> {
    if entries.contains(entry) {
        entries
    } else {
        entries.push(entry)
    }
}

/// The expressions of a list, one by one.
pub open spec fn expressions_model(entries: Seq<ParameterExpression>) -> Seq<ExpressionModel> {
    entries.map_values(|entry: ParameterExpression| entry@)
}

/// The symbolic angles absorbed into collectors, and the symbols the caller must bind.
///
/// Holds *only* the user's own parameters. The open angles lowering mints for the synth templates are a
/// separate space, addressed by index, so a user parameter named like one is not a collision here, but
/// **a consumer must not merge the two lists by name**, because it would become one there.
pub struct ParameterTable {
    entries: Vec<ParameterExpression>,
    lookup: ExpressionLookup,
    /// Every symbol appearing in any entry, once, in ascending order.
    free: Vec<Symbol>,
}

impl View for ParameterTable {
    type V = Seq<ExpressionModel>;

    closed spec fn view(&self) -> Seq<ExpressionModel> {
        expressions_model(self.entries@)
    }
}

impl ParameterTable {
    /// The table's parts agree with each other: no expression is in it twice, each can be looked up,
    /// and the free symbols are exactly the symbols of the entries, in order.
    pub closed spec fn wf(self) -> bool {
        let entries = expressions_model(self.entries@);
        &&& entries.no_duplicates()
        &&& entries.len() <= u32::MAX + 1
        &&& forall|i: int|
            0 <= i < entries.len() ==> lists(
                listed((#[trigger] entries[i]).symbols),
                entries[i].symbols,
            )
        &&& forall|i: int|
            0 <= i < entries.len() ==> self.lookup@.dom().contains(
                plain_expression(#[trigger] entries[i]),
            ) && self.lookup@[plain_expression(entries[i])] == i
        &&& forall|key: ExpressionKeyModel| #[trigger]
            self.lookup@.dom().contains(key) ==> exists|i: int|
                0 <= i < entries.len() && plain_expression(#[trigger] entries[i]) == key
        &&& symbols_ascending(symbols_model(self.free@))
        &&& forall|symbol: SymbolModel| #[trigger]
            symbols_model(self.free@).contains(symbol) <==> symbols_of(entries).contains(symbol)
    }

    /// Construct an empty table.
    pub fn new() -> (table: Self)
        ensures
            table.wf(),
            table@ == Seq::<ExpressionModel>::empty(),
    {
        let table = ParameterTable {
            entries: Vec::new(),
            lookup: ExpressionLookup::new(),
            free: Vec::new(),
        };
        assert(expressions_model(table.entries@) =~= Seq::<ExpressionModel>::empty());
        table
    }

    /// Insert `expr`, returning the key for it. Returns the existing key if it is already present.
    pub fn intern(&mut self, expr: ParameterExpression) -> (key: ParamKey)
        requires
            old(self).wf(),
            old(self)@.contains(expr@) || old(self)@.len() <= u32::MAX,
        ensures
            final(self).wf(),
            key.0 == expression_slot(old(self)@, expr@),
            final(self)@ == with_expression(old(self)@, expr@),
    {
        let ghost entries = self@;
        let plain_key = plain(&expr);
        if let Some(number) = self.lookup.get(&plain_key) {
            proof {
                assert(self.lookup@.dom().contains(plain_expression(expr@)));
                let i = choose|i: int|
                    0 <= i < entries.len() && plain_expression(#[trigger] entries[i])
                        == plain_expression(expr@);
                lemma_plain_expression_is_injective(entries[i], expr@);
                assert(entries.contains(expr@));
                assert(entries[entries.index_of(expr@)] == expr@);
            }
            return ParamKey(number);
        }
        proof {
            if entries.contains(expr@) {
                let i = entries.index_of(expr@);
                assert(entries[i] == expr@);
                assert(self.lookup@.dom().contains(plain_expression(entries[i])));
            }
        }
        let ghost lookup = self.lookup@;
        self.register_free(&expr);
        let key = ParamKey(self.entries.len() as u32);
        let ghost said = expr@;
        self.entries.push(expr);
        self.lookup.insert(plain_key, key.0);
        proof {
            let after = entries.push(said);
            assert(self@ =~= after);
            assert forall|i: int| 0 <= i < after.len() implies self.lookup@.dom().contains(
                plain_expression(#[trigger] after[i]),
            ) && self.lookup@[plain_expression(after[i])] == i by {
                if i < entries.len() {
                    assert(after[i] == entries[i]);
                    if plain_expression(entries[i]) == plain_expression(said) {
                        lemma_plain_expression_is_injective(entries[i], said);
                        assert(entries.contains(said));
                    }
                }
            }
            assert forall|k: ExpressionKeyModel| #[trigger] self.lookup@.dom().contains(k)
                implies exists|i: int|
                0 <= i < after.len() && plain_expression(#[trigger] after[i]) == k by {
                if k == plain_expression(said) {
                    assert(plain_expression(after[entries.len() as int]) == k);
                } else {
                    assert(lookup.dom().contains(k));
                    let i = choose|i: int|
                        0 <= i < entries.len() && plain_expression(#[trigger] entries[i]) == k;
                    assert(plain_expression(after[i]) == k);
                }
            }
            assert forall|symbol: SymbolModel| #[trigger]
                symbols_model(self.free@).contains(symbol) <==> symbols_of(after).contains(
                    symbol,
                ) by {
                if symbols_of(entries).contains(symbol) {
                    let i = choose|i: int|
                        0 <= i < entries.len() && (#[trigger] entries[i]).symbols.contains(symbol);
                    assert(after[i].symbols.contains(symbol));
                }
                if said.symbols.contains(symbol) {
                    assert(after[entries.len() as int].symbols.contains(symbol));
                }
                if symbols_of(after).contains(symbol) {
                    let i = choose|i: int|
                        0 <= i < after.len() && (#[trigger] after[i]).symbols.contains(symbol);
                    if i < entries.len() {
                        assert(entries[i].symbols.contains(symbol));
                    }
                }
            }
        }
        key
    }

    /// Fold an expression's symbols into the free ones, keeping them deduplicated and sorted.
    ///
    /// By search rather than by push and sort, so that nothing takes its order from the order the
    /// expression lists its symbols in.
    fn register_free(&mut self, expr: &ParameterExpression)
        requires
            symbols_ascending(symbols_model(old(self).free@)),
        ensures
            final(self).entries == old(self).entries,
            final(self).lookup == old(self).lookup,
            symbols_ascending(symbols_model(final(self).free@)),
            forall|symbol: SymbolModel| #[trigger]
                symbols_model(final(self).free@).contains(symbol) <==> symbols_model(
                    old(self).free@,
                ).contains(symbol) || expr@.symbols.contains(symbol),
    {
        let ghost given = symbols_model(expr.symbols@);
        let mut i: usize = 0;
        while i < expr.symbols.len()
            invariant
                i <= expr.symbols.len(),
                given == symbols_model(expr.symbols@),
                self.entries == old(self).entries,
                self.lookup == old(self).lookup,
                symbols_ascending(symbols_model(self.free@)),
                forall|symbol: SymbolModel| #[trigger]
                    symbols_model(self.free@).contains(symbol) <==> symbols_model(
                        old(self).free@,
                    ).contains(symbol) || given.take(i as int).contains(symbol),
            decreases expr.symbols.len() - i,
        {
            list_symbol(&mut self.free, &expr.symbols[i]);
            proof {
                lemma_take_contains(given, i as int);
            }
            i += 1;
        }
        proof {
            assert(given.take(i as int) =~= given);
            assert forall|symbol: SymbolModel| given.contains(symbol) == #[trigger] expr@.symbols.contains(
                symbol,
            ) by {}
        }
    }

    /// Look up an entry by key.
    pub fn get(&self, key: ParamKey) -> (entry: Option<&ParameterExpression>)
        ensures
            match entry {
                Some(entry) => key.0 < self@.len() && entry@ == self@[key.0 as int],
                None => key.0 >= self@.len(),
            },
    {
        if key.index() < self.entries.len() {
            assert(self@[key.0 as int] == self.entries@[key.0 as int]@);
            Some(&self.entries[key.index()])
        } else {
            None
        }
    }

    /// All entries, in key order.
    pub fn entries(&self) -> (entries: &[ParameterExpression])
        ensures
            expressions_model(entries@) == self@,
    {
        self.entries.as_slice()
    }

    /// The symbols a caller must bind before sampling: those of the entries, each once, in ascending
    /// order.
    pub fn free(&self) -> (symbols: &[Symbol])
        requires
            self.wf(),
        ensures
            symbols_ascending(symbols_model(symbols@)),
            symbols_model(symbols@).to_set() == symbols_of(self@),
    {
        proof {
            assert forall|symbol: SymbolModel|
                symbols_model(self.free@).to_set().contains(symbol) <==> symbols_of(
                    self@,
                ).contains(symbol) by {
                assert(symbols_model(self.free@).contains(symbol) <==> symbols_of(self@).contains(
                    symbol,
                ));
            }
            assert(symbols_model(self.free@).to_set() =~= symbols_of(self@));
        }
        self.free.as_slice()
    }

    /// The number of entries.
    pub fn len(&self) -> (count: usize)
        ensures
            count == self@.len(),
    {
        self.entries.len()
    }

    /// Whether the table is empty.
    pub fn is_empty(&self) -> (empty: bool)
        ensures
            empty == (self@.len() == 0),
    {
        self.entries.len() == 0
    }

    /// The full names of the symbols a caller must bind, in the order [`free`](Self::free) lists them.
    pub fn free_parameters(&self) -> (names: Vec<String>)
        requires
            self.wf(),
        ensures
            exists|symbols: Seq<SymbolModel>|
                symbols_ascending(symbols) && symbols.to_set() == symbols_of(self@)
                    && #[trigger] symbol_names(symbols) == text::texts_of(names@),
    {
        let symbols = self.free();
        let mut names: Vec<String> = Vec::new();
        let mut i: usize = 0;
        while i < symbols.len()
            invariant
                i <= symbols.len(),
                names.len() == i,
                forall|k: int| 0 <= k < i ==> (#[trigger] names@[k])@ == symbols@[k]@.0,
            decreases symbols.len() - i,
        {
            names.push(symbols[i].fullname.clone());
            i += 1;
        }
        proof {
            assert(symbol_names(symbols_model(symbols@)) =~= text::texts_of(names@));
        }
        names
    }

    /// The table's entries as they read, in key order.
    pub fn texts(&self) -> (texts: Vec<String>)
        ensures
            text::texts_of(texts@) == self@.map_values(|entry: ExpressionModel| entry.text),
    {
        let mut texts: Vec<String> = Vec::new();
        let mut i: usize = 0;
        while i < self.entries.len()
            invariant
                i <= self.entries.len(),
                texts.len() == i,
                forall|k: int| 0 <= k < i ==> (#[trigger] texts@[k])@ == self@[k].text,
            decreases self.entries.len() - i,
        {
            texts.push(self.entries[i].text.clone());
            i += 1;
        }
        assert(text::texts_of(texts@) =~= self@.map_values(|entry: ExpressionModel| entry.text));
        texts
    }

    /// The table in a few words.
    pub fn to_text(&self) -> (text: String)
        ensures
            text@ == "ParameterTable("@ + text::numbered_text(
                self@.map_values(|entry: ExpressionModel| entry.text),
            ) + ")"@,
    {
        let texts = self.texts();
        assert(texts@.map_values(|item: String| item@) =~= text::texts_of(texts@));
        let mut text = String::from_str("ParameterTable(");
        text.append(text::numbered(&texts).as_str());
        text.append(")");
        text
    }
}

impl Default for ParameterTable {
    fn default() -> (table: Self)
        ensures
            table.wf(),
            table@ == Seq::<ExpressionModel>::empty(),
    {
        Self::new()
    }
}

/// What was interned is what the key gives back.
pub proof fn lemma_key_gives_back_its_expression(
    entries: Seq<ExpressionModel>,
    entry: ExpressionModel,
)
    ensures
        expression_slot(entries, entry) < with_expression(entries, entry).len(),
        with_expression(entries, entry)[expression_slot(entries, entry) as int] == entry,
{
    if entries.contains(entry) {
        assert(entries[entries.index_of(entry)] == entry);
    }
}

/// Two ascending lists of the same symbols are the same list.
pub proof fn lemma_ascending_list_is_unique(left: Seq<SymbolModel>, right: Seq<SymbolModel>)
    requires
        symbols_ascending(left),
        symbols_ascending(right),
        left.to_set() == right.to_set(),
    ensures
        left == right,
    decreases left.len(),
{
    if left.len() == 0 {
        if right.len() > 0 {
            assert(right.to_set().contains(right[0]));
            assert(left.contains(right[0]));
        }
        assert(left =~= right);
    } else {
        assert(left.to_set().contains(left.last()));
        assert(right.contains(left.last()));
        assert(right.to_set().contains(right.last()));
        assert(left.contains(right.last()));
        let at = right.index_of(left.last());
        let back = left.index_of(right.last());
        lemma_symbol_order(left.last(), right.last(), left.last());
        assert(left.last() == right.last());
        let l = left.drop_last();
        let r = right.drop_last();
        assert forall|s: SymbolModel| l.to_set().contains(s) <==> r.to_set().contains(s) by {
            if l.contains(s) {
                let k = l.index_of(s);
                assert(left[k] == s && left.to_set().contains(s));
                assert(right.to_set().contains(s));
                let m = right.index_of(s);
                lemma_symbol_order(left[k], left.last(), left[k]);
                assert(symbol_before(left[k], left[left.len() - 1]));
                assert(m < right.len() - 1);
                assert(r[m] == s);
            }
            if r.contains(s) {
                let k = r.index_of(s);
                assert(right[k] == s && right.to_set().contains(s));
                assert(left.to_set().contains(s));
                let m = left.index_of(s);
                lemma_symbol_order(right[k], right.last(), right[k]);
                assert(symbol_before(right[k], right[right.len() - 1]));
                assert(m < left.len() - 1);
                assert(l[m] == s);
            }
        }
        assert(l.to_set() =~= r.to_set());
        lemma_ascending_list_is_unique(l, r);
        assert(left =~= l.push(left.last()));
        assert(right =~= r.push(right.last()));
    }
}

/// What a caller must bind does not depend on the order in which the expressions were interned: two
/// tables holding the same expressions have the same symbols to bind, and so, by
/// [`lemma_ascending_list_is_unique`], the same list of them.
pub proof fn lemma_free_symbols_ignore_intern_order(
    first: Seq<ExpressionModel>,
    second: Seq<ExpressionModel>,
)
    requires
        first.to_set() == second.to_set(),
    ensures
        symbols_of(first) == symbols_of(second),
{
    assert forall|symbol: SymbolModel|
        symbols_of(first).contains(symbol) <==> symbols_of(second).contains(symbol) by {
        if symbols_of(first).contains(symbol) {
            let i = choose|i: int|
                0 <= i < first.len() && (#[trigger] first[i]).symbols.contains(symbol);
            assert(first.to_set().contains(first[i]));
            assert(second.to_set().contains(first[i]));
            let j = second.index_of(first[i]);
            assert(second[j].symbols.contains(symbol));
        }
        if symbols_of(second).contains(symbol) {
            let i = choose|i: int|
                0 <= i < second.len() && (#[trigger] second[i]).symbols.contains(symbol);
            assert(second.to_set().contains(second[i]));
            assert(first.to_set().contains(second[i]));
            let j = first.index_of(second[i]);
            assert(first[j].symbols.contains(symbol));
        }
    }
    assert(symbols_of(first) =~= symbols_of(second));
}

} // verus!
