//! The value model: a tree of scalars, arrays and objects, with deep merge.

use crate::text::push_decimal;
use vstd::prelude::*;

verus! {

/// The mathematical content of a [`Value`].
///
/// An object is the sequence of its entries in the order in which their keys
/// first appeared; no key occurs twice in a well-formed one.
pub ghost enum Tree {
    Null,
    Bool(bool),
    Int(i64),
    /// A float, held as its decimal text (or `nan`, `inf`, `-inf`).
    Float(Seq<char>),
    Str(Seq<char>),
    Symbol(Seq<char>),
    /// A reference `$name` that has not been replaced by a value yet.
    Ref(Seq<char>),
    Array(Seq<Tree>),
    Object(Seq<(Seq<char>, Tree)>),
}

/// The entries of an object: key and value, in order.
pub type Entries = Seq<(Seq<char>, Tree)>;

/// Whether some entry has the key.
pub open spec fn has_key(entries: Entries, key: Seq<char>) -> bool {
    exists|i: int| 0 <= i < entries.len() && (#[trigger] entries[i]).0 == key
}

/// Whether `i` is the first entry with the key.
pub open spec fn first_at(entries: Entries, key: Seq<char>, i: int) -> bool {
    &&& 0 <= i < entries.len()
    &&& entries[i].0 == key
    &&& forall|j: int| 0 <= j < i ==> (#[trigger] entries[j]).0 != key
}

/// The index of the first entry with the key, if `has_key`.
pub open spec fn index_of(entries: Entries, key: Seq<char>) -> int {
    choose|i: int| first_at(entries, key, i)
}

/// The value under the key in the first entry that has it.
pub open spec fn value_of(entries: Entries, key: Seq<char>) -> Option<Tree> {
    if has_key(entries, key) {
        Some(entries[index_of(entries, key)].1)
    } else {
        None
    }
}

/// The entries with `value` under `key`: in the place of the key's first
/// entry, or as a new last entry.
pub open spec fn put(entries: Entries, key: Seq<char>, value: Tree) -> Entries {
    if has_key(entries, key) {
        entries.update(index_of(entries, key), (key, value))
    } else {
        entries.push((key, value))
    }
}

/// No key occurs twice.
pub open spec fn keys_distinct(entries: Entries) -> bool {
    forall|i: int, j: int|
        0 <= i < j < entries.len() ==> (#[trigger] entries[i]).0 != (#[trigger] entries[j]).0
}

/// Deep merge: two objects are merged key by key, the overlay's entries
/// taken in order; in every other case the overlay replaces the base.
pub open spec fn merge(base: Tree, overlay: Tree) -> Tree
    decreases overlay, 1int,
{
    match (base, overlay) {
        (Tree::Object(b), Tree::Object(o)) => Tree::Object(merge_entries(b, o)),
        _ => overlay,
    }
}

/// The base entries after merging each overlay entry into them, first to last.
pub open spec fn merge_entries(base: Entries, overlay: Entries) -> Entries
    decreases overlay, 0int,
{
    if overlay.len() == 0 {
        base
    } else {
        merge_entry(merge_entries(base, overlay.drop_last()), overlay.last().0, overlay.last().1)
    }
}

/// One overlay entry merged into the base: into the value already under
/// its key, or added as a new last entry.
pub open spec fn merge_entry(base: Entries, key: Seq<char>, value: Tree) -> Entries
    decreases value, 2int,
{
    if has_key(base, key) {
        let i = index_of(base, key);
        base.update(i, (key, merge(base[i].1, value)))
    } else {
        base.push((key, value))
    }
}

/// The one-line text of a tree: scalars as written, arrays in `[..]` and
/// objects in `{..}` with `, ` between their parts.
pub open spec fn display(tree: Tree) -> Seq<char>
    decreases tree, 1int,
{
    match tree {
        Tree::Null => "null"@,
        Tree::Bool(b) => if b {
            "true"@
        } else {
            "false"@
        },
        Tree::Int(i) => crate::text::decimal_of(i as int),
        Tree::Float(text) => text,
        Tree::Str(text) => text,
        Tree::Symbol(name) => ":"@ + name,
        Tree::Ref(name) => "$"@ + name,
        Tree::Array(items) => "["@ + display_items(items) + "]"@,
        Tree::Object(entries) => "{"@ + display_entries(entries) + "}"@,
    }
}

/// The texts of the items, with `, ` between them.
pub open spec fn display_items(items: Seq<Tree>) -> Seq<char>
    decreases items, 0int,
{
    if items.len() == 0 {
        Seq::empty()
    } else if items.len() == 1 {
        display(items[0])
    } else {
        display_items(items.drop_last()) + ", "@ + display(items.last())
    }
}

/// The texts `:key value` of the entries, with `, ` between them.
pub open spec fn display_entries(entries: Entries) -> Seq<char>
    decreases entries, 0int,
{
    if entries.len() == 0 {
        Seq::empty()
    } else if entries.len() == 1 {
        ":"@ + entries[0].0 + " "@ + display(entries[0].1)
    } else {
        display_entries(entries.drop_last()) + ", :"@ + entries.last().0 + " "@ + display(
            entries.last().1,
        )
    }
}

impl Tree {
    /// No object anywhere in the tree has a key twice.
    pub open spec fn well_formed(self) -> bool
        decreases self,
    {
        match self {
            Tree::Array(items) => forall|i: int|
                0 <= i < items.len() ==> (#[trigger] items[i]).well_formed(),
            Tree::Object(entries) => {
                &&& keys_distinct(entries)
                &&& forall|i: int|
                    0 <= i < entries.len() ==> (#[trigger] entries[i]).1.well_formed()
            },
            _ => true,
        }
    }

    /// Every key of every object in the tree is one that `keys` accepts,
    /// and every name of a symbol or of a reference one that `names`
    /// accepts.
    pub open spec fn labelled(
        self,
        keys: spec_fn(Seq<char>) -> bool,
        names: spec_fn(Seq<char>) -> bool,
    ) -> bool
        decreases self,
    {
        match self {
            Tree::Symbol(name) => names(name),
            Tree::Ref(name) => names(name),
            Tree::Array(items) => forall|i: int|
                0 <= i < items.len() ==> (#[trigger] items[i]).labelled(keys, names),
            Tree::Object(entries) => forall|i: int|
                0 <= i < entries.len() ==> keys((#[trigger] entries[i]).0) && entries[i].1.labelled(
                    keys,
                    names,
                ),
            _ => true,
        }
    }

    /// No reference is left anywhere in the tree.
    pub open spec fn resolved(self) -> bool
        decreases self,
    {
        match self {
            Tree::Ref(_) => false,
            Tree::Array(items) => forall|i: int|
                0 <= i < items.len() ==> (#[trigger] items[i]).resolved(),
            Tree::Object(entries) => forall|i: int|
                0 <= i < entries.len() ==> (#[trigger] entries[i]).1.resolved(),
            _ => true,
        }
    }
}

/// The first entry with a key is the only one that `first_at` accepts.
pub proof fn lemma_first_at_unique(entries: Entries, key: Seq<char>, i: int)
    requires
        first_at(entries, key, i),
    ensures
        has_key(entries, key),
        index_of(entries, key) == i,
{
    let k = index_of(entries, key);
    assert(first_at(entries, key, k));
    if k < i {
        assert(entries[k].0 != key);
    }
    if i < k {
        assert(entries[i].0 != key);
    }
}

/// Where a key is present, `index_of` is its first entry.
pub proof fn lemma_index_of(entries: Entries, key: Seq<char>)
    requires
        has_key(entries, key),
    ensures
        first_at(entries, key, index_of(entries, key)),
{
    let w = choose|i: int| 0 <= i < entries.len() && (#[trigger] entries[i]).0 == key;
    lemma_first_exists(entries, key, w);
}

proof fn lemma_first_exists(entries: Entries, key: Seq<char>, w: int)
    requires
        0 <= w < entries.len(),
        entries[w].0 == key,
    ensures
        exists|i: int| first_at(entries, key, i),
    decreases w,
{
    if forall|j: int| 0 <= j < w ==> (#[trigger] entries[j]).0 != key {
        assert(first_at(entries, key, w));
    } else {
        let j = choose|j: int| 0 <= j < w && (#[trigger] entries[j]).0 == key;
        lemma_first_exists(entries, key, j);
    }
}

/// Putting a value under a key keeps the keys distinct.
pub proof fn lemma_put_distinct(entries: Entries, key: Seq<char>, value: Tree)
    requires
        keys_distinct(entries),
    ensures
        keys_distinct(put(entries, key, value)),
{
    if has_key(entries, key) {
        lemma_index_of(entries, key);
    } else {
        let after = entries.push((key, value));
        assert forall|i: int, j: int| 0 <= i < j < after.len() implies (#[trigger] after[i]).0 != (
        #[trigger] after[j]).0 by {
            if j == entries.len() {
                assert(entries[i].0 != key);
            }
        }
    }
}

/// An object stays well formed when a well formed value is put into it.
pub proof fn lemma_put_well_formed(entries: Entries, key: Seq<char>, value: Tree)
    requires
        Tree::Object(entries).well_formed(),
        value.well_formed(),
    ensures
        Tree::Object(put(entries, key, value)).well_formed(),
{
    lemma_put_distinct(entries, key, value);
    if has_key(entries, key) {
        lemma_index_of(entries, key);
    }
    let after = put(entries, key, value);
    assert forall|i: int| 0 <= i < after.len() implies (#[trigger] after[i]).1.well_formed() by {
        if has_key(entries, key) {
            if i != index_of(entries, key) {
                assert(after[i] == entries[i]);
            }
        } else if i < entries.len() {
            assert(after[i] == entries[i]);
        }
    }
}

/// Merging well formed trees gives a well formed tree.
pub proof fn lemma_merge_well_formed(base: Tree, overlay: Tree)
    requires
        base.well_formed(),
        overlay.well_formed(),
    ensures
        merge(base, overlay).well_formed(),
    decreases overlay, 1int,
{
    match (base, overlay) {
        (Tree::Object(b), Tree::Object(o)) => {
            lemma_merge_entries_well_formed(b, o);
        },
        _ => {},
    }
}

proof fn lemma_merge_entries_well_formed(base: Entries, overlay: Entries)
    requires
        Tree::Object(base).well_formed(),
        Tree::Object(overlay).well_formed(),
    ensures
        Tree::Object(merge_entries(base, overlay)).well_formed(),
    decreases overlay, 0int,
{
    if overlay.len() > 0 {
        let before = overlay.drop_last();
        assert(Tree::Object(before).well_formed()) by {
            assert forall|i: int| 0 <= i < before.len() implies (#[trigger] before[i]).1.well_formed() by {
                assert(before[i] == overlay[i]);
            }
            assert forall|i: int, j: int| 0 <= i < j < before.len() implies (
            #[trigger] before[i]).0 != (#[trigger] before[j]).0 by {
                assert(before[i] == overlay[i]);
                assert(before[j] == overlay[j]);
            }
        }
        lemma_merge_entries_well_formed(base, before);
        assert(overlay.last().1.well_formed()) by {
            assert(overlay[overlay.len() - 1].1.well_formed());
        }
        lemma_merge_entry_well_formed(
            merge_entries(base, before),
            overlay.last().0,
            overlay.last().1,
        );
    }
}

/// An object stays well formed when a well formed value is merged into it
/// under a key.
pub proof fn lemma_merge_entry_well_formed(base: Entries, key: Seq<char>, value: Tree)
    requires
        Tree::Object(base).well_formed(),
        value.well_formed(),
    ensures
        Tree::Object(merge_entry(base, key, value)).well_formed(),
    decreases value, 2int,
{
    if has_key(base, key) {
        lemma_index_of(base, key);
        let i = index_of(base, key);
        assert(base[i].1.well_formed());
        lemma_merge_well_formed(base[i].1, value);
        let merged = merge(base[i].1, value);
        assert(put(base, key, merged) == merge_entry(base, key, value));
        lemma_put_well_formed(base, key, merged);
    } else {
        assert(put(base, key, value) == merge_entry(base, key, value));
        lemma_put_well_formed(base, key, value);
    }
}

/// An object keeps its labels when a value with the same labels is put
/// into it under a key that `keys` accepts.
pub proof fn lemma_put_labelled(
    entries: Entries,
    key: Seq<char>,
    value: Tree,
    keys: spec_fn(Seq<char>) -> bool,
    names: spec_fn(Seq<char>) -> bool,
)
    requires
        Tree::Object(entries).labelled(keys, names),
        keys(key),
        value.labelled(keys, names),
    ensures
        Tree::Object(put(entries, key, value)).labelled(keys, names),
{
    if has_key(entries, key) {
        lemma_index_of(entries, key);
    }
    let whole = Tree::Object(entries);
    assert(whole->Object_0 == entries);
    let after = put(entries, key, value);
    assert forall|i: int| 0 <= i < after.len() implies keys((#[trigger] after[i]).0)
        && after[i].1.labelled(keys, names) by {
        if has_key(entries, key) {
            if i != index_of(entries, key) {
                assert(after[i] == entries[i]);
            }
        } else if i < entries.len() {
            assert(after[i] == entries[i]);
        }
    }
}

/// Merging trees with the same labels gives a tree with these labels.
pub proof fn lemma_merge_labelled(
    base: Tree,
    overlay: Tree,
    keys: spec_fn(Seq<char>) -> bool,
    names: spec_fn(Seq<char>) -> bool,
)
    requires
        base.labelled(keys, names),
        overlay.labelled(keys, names),
    ensures
        merge(base, overlay).labelled(keys, names),
    decreases overlay, 1int,
{
    match (base, overlay) {
        (Tree::Object(b), Tree::Object(o)) => {
            assert(base->Object_0 == b);
            assert(overlay->Object_0 == o);
            lemma_merge_entries_labelled(b, o, keys, names);
        },
        _ => {},
    }
}

proof fn lemma_merge_entries_labelled(
    base: Entries,
    overlay: Entries,
    keys: spec_fn(Seq<char>) -> bool,
    names: spec_fn(Seq<char>) -> bool,
)
    requires
        Tree::Object(base).labelled(keys, names),
        Tree::Object(overlay).labelled(keys, names),
    ensures
        Tree::Object(merge_entries(base, overlay)).labelled(keys, names),
    decreases overlay, 0int,
{
    if overlay.len() > 0 {
        let before = overlay.drop_last();
        let whole = Tree::Object(overlay);
        assert(whole->Object_0 == overlay);
        assert(Tree::Object(before).labelled(keys, names)) by {
            assert forall|i: int| 0 <= i < before.len() implies keys((#[trigger] before[i]).0)
                && before[i].1.labelled(keys, names) by {
                assert(before[i] == overlay[i]);
            }
        }
        lemma_merge_entries_labelled(base, before, keys, names);
        assert(overlay.last() == overlay[overlay.len() - 1]);
        lemma_merge_entry_labelled(
            merge_entries(base, before),
            overlay.last().0,
            overlay.last().1,
            keys,
            names,
        );
    }
}

/// An object keeps its labels when a value with the same labels is merged
/// into it under a key that `keys` accepts.
pub proof fn lemma_merge_entry_labelled(
    base: Entries,
    key: Seq<char>,
    value: Tree,
    keys: spec_fn(Seq<char>) -> bool,
    names: spec_fn(Seq<char>) -> bool,
)
    requires
        Tree::Object(base).labelled(keys, names),
        keys(key),
        value.labelled(keys, names),
    ensures
        Tree::Object(merge_entry(base, key, value)).labelled(keys, names),
    decreases value, 2int,
{
    if has_key(base, key) {
        lemma_index_of(base, key);
        let i = index_of(base, key);
        let whole = Tree::Object(base);
        assert(whole->Object_0 == base);
        assert(base[i].1.labelled(keys, names));
        lemma_merge_labelled(base[i].1, value, keys, names);
        let merged = merge(base[i].1, value);
        assert(put(base, key, merged) == merge_entry(base, key, value));
        lemma_put_labelled(base, key, merged, keys, names);
    } else {
        assert(put(base, key, value) == merge_entry(base, key, value));
        lemma_put_labelled(base, key, value, keys, names);
    }
}

/// One entry of an object.
#[derive(Debug, PartialEq)]
pub struct Entry {
    pub(crate) key: String,
    pub(crate) value: Value,
}

/// An object: values under keys, each key once, in the order in which the
/// keys were first inserted.
#[derive(Debug, PartialEq)]
pub struct Object {
    pub(crate) entries: Vec<Entry>,
}

/// A value of the notation.
#[derive(Debug, PartialEq)]
pub enum Value {
    Null,
    Bool(bool),
    Int(i64),
    /// A float, held as its decimal text (or `nan`, `inf`, `-inf`).
    Float(String),
    String(String),
    /// A symbol, written `:name`; the name is held without the colon.
    Symbol(String),
    Array(Vec<Value>),
    Object(Object),
    /// A reference `$name` to a variable. A parsed document holds none:
    /// each has been replaced by the variable's value.
    Ref(String),
}

/// The trees of a sequence of values.
pub open spec fn trees_of(items: Seq<Value>) -> Seq<Tree>
    decreases items,
{
    if items.len() == 0 {
        Seq::empty()
    } else {
        trees_of(items.drop_last()).push(items.last()@)
    }
}

/// The keys and trees of a sequence of entries.
pub closed spec fn entries_of(entries: Seq<Entry>) -> Entries
    decreases entries,
{
    if entries.len() == 0 {
        Seq::empty()
    } else {
        entries_of(entries.drop_last()).push((entries.last().key@, entries.last().value@))
    }
}

impl View for Entry {
    type V = (Seq<char>, Tree);

    closed spec fn view(&self) -> (Seq<char>, Tree) {
        (self.key@, self.value@)
    }
}

impl View for Object {
    type V = Entries;

    closed spec fn view(&self) -> Entries
        decreases self,
    {
        entries_of(self.entries@)
    }
}

impl View for Value {
    type V = Tree;

    open spec fn view(&self) -> Tree
        decreases self,
    {
        match self {
            Value::Null => Tree::Null,
            Value::Bool(b) => Tree::Bool(*b),
            Value::Int(i) => Tree::Int(*i),
            Value::Float(text) => Tree::Float(text@),
            Value::String(text) => Tree::Str(text@),
            Value::Symbol(name) => Tree::Symbol(name@),
            Value::Ref(name) => Tree::Ref(name@),
            Value::Array(items) => Tree::Array(trees_of(items@)),
            Value::Object(object) => Tree::Object(object@),
        }
    }
}

/// `trees_of` maps item by item.
pub proof fn lemma_trees_of(items: Seq<Value>)
    ensures
        trees_of(items).len() == items.len(),
        forall|i: int| 0 <= i < items.len() ==> (#[trigger] trees_of(items)[i]) == items[i]@,
    decreases items.len(),
{
    reveal_with_fuel(trees_of, 2);
    if items.len() > 0 {
        lemma_trees_of(items.drop_last());
        assert(trees_of(items) == trees_of(items.drop_last()).push(items.last()@));
    } else {
        assert(trees_of(items) == Seq::<Tree>::empty());
    }
}

/// Pushing an item pushes its tree.
pub proof fn lemma_trees_of_push(items: Seq<Value>, item: Value)
    ensures
        trees_of(items.push(item)) == trees_of(items).push(item@),
{
    assert(items.push(item).drop_last() =~= items);
}

/// The trees of two sequences in a row are the trees of the first, then
/// those of the second.
pub proof fn lemma_trees_of_concat(first: Seq<Value>, second: Seq<Value>)
    ensures
        trees_of(first + second) == trees_of(first) + trees_of(second),
{
    lemma_trees_of(first);
    lemma_trees_of(second);
    lemma_trees_of(first + second);
    assert(trees_of(first + second) =~= trees_of(first) + trees_of(second));
}

/// `entries_of` maps entry by entry.
pub(crate) proof fn lemma_entries_of(entries: Seq<Entry>)
    ensures
        entries_of(entries).len() == entries.len(),
        forall|i: int|
            0 <= i < entries.len() ==> (#[trigger] entries_of(entries)[i]) == (
                entries[i].key@,
                entries[i].value@,
            ),
    decreases entries.len(),
{
    if entries.len() > 0 {
        lemma_entries_of(entries.drop_last());
        assert(entries_of(entries) == entries_of(entries.drop_last()).push(entries.last()@));
    } else {
        assert(entries_of(entries) == Entries::empty());
    }
}

/// An object's entries are the keys and trees of the entries that it holds.
pub(crate) proof fn lemma_object_view(object: Object)
    ensures
        object@.len() == object.entries@.len(),
        forall|i: int|
            0 <= i < object.entries@.len() ==> (#[trigger] object@[i]) == (
                object.entries@[i].key@,
                object.entries@[i].value@,
            ),
{
    lemma_entries_of(object.entries@);
}

impl Entry {
    /// An entry of a key and a value.
    pub fn new(key: String, value: Value) -> (entry: Entry)
        ensures
            entry@ == (key@, value@),
    {
        Entry { key, value }
    }

    /// The key of the entry.
    pub fn key(&self) -> (key: &String)
        ensures
            key@ == self@.0,
    {
        &self.key
    }

    /// The value of the entry.
    pub fn value(&self) -> (value: &Value)
        ensures
            value@ == self@.1,
    {
        &self.value
    }
}

impl Object {
    /// An object without entries.
    pub fn new() -> (object: Object)
        ensures
            object@ == Entries::empty(),
    {
        Object { entries: Vec::new() }
    }

    /// The number of entries.
    pub fn len(&self) -> (n: usize)
        ensures
            n == self@.len(),
    {
        proof {
            lemma_entries_of(self.entries@);
        }
        self.entries.len()
    }

    /// Whether the object has no entry.
    pub fn is_empty(&self) -> (b: bool)
        ensures
            b == (self@.len() == 0),
    {
        proof {
            lemma_entries_of(self.entries@);
        }
        self.entries.len() == 0
    }

    /// The entry at position `i`.
    pub fn entry(&self, i: usize) -> (entry: &Entry)
        requires
            i < self@.len(),
        ensures
            entry@ == self@[i as int],
    {
        proof {
            lemma_entries_of(self.entries@);
        }
        &self.entries[i]
    }

    /// The position of the first entry with the key.
    pub fn find(&self, key: &str) -> (found: Option<usize>)
        ensures
            match found {
                Some(i) => first_at(self@, key@, i as int),
                None => !has_key(self@, key@),
            },
    {
        proof {
            lemma_entries_of(self.entries@);
        }
        let wanted = String::from_str(key);
        let mut i: usize = 0;
        while i < self.entries.len()
            invariant
                i <= self.entries.len(),
                self@.len() == self.entries@.len(),
                forall|j: int| 0 <= j < self.entries@.len() ==> (#[trigger] self@[j]) == self.entries@[j]@,
                wanted@ == key@,
                forall|j: int| 0 <= j < i ==> (#[trigger] self@[j]).0 != key@,
            decreases self.entries.len() - i,
        {
            if self.entries[i].key == wanted {
                return Some(i);
            }
            i += 1;
        }
        None
    }

    /// Whether some entry has the key.
    pub fn contains_key(&self, key: &str) -> (b: bool)
        ensures
            b == has_key(self@, key@),
    {
        match self.find(key) {
            Some(i) => {
                proof {
                    lemma_first_at_unique(self@, key@, i as int);
                }
                true
            },
            None => false,
        }
    }

    /// The value under the key.
    pub fn get(&self, key: &str) -> (value: Option<&Value>)
        ensures
            match value {
                Some(v) => value_of(self@, key@) == Some(v@),
                None => value_of(self@, key@) is None,
            },
    {
        match self.find(key) {
            Some(i) => {
                proof {
                    lemma_first_at_unique(self@, key@, i as int);
                    lemma_entries_of(self.entries@);
                }
                Some(&self.entries[i].value)
            },
            None => None,
        }
    }

    /// Adds a last entry.
    pub(crate) fn push(&mut self, key: String, value: Value)
        ensures
            final(self)@ == old(self)@.push((key@, value@)),
    {
        self.entries.push(Entry { key, value });
        proof {
            assert(self.entries@.drop_last() =~= old(self).entries@);
        }
    }

    /// Replaces the value of the entry at position `i`.
    pub(crate) fn set(&mut self, i: usize, value: Value)
        requires
            i < old(self)@.len(),
        ensures
            final(self)@ == old(self)@.update(i as int, (old(self)@[i as int].0, value@)),
    {
        proof {
            lemma_entries_of(self.entries@);
        }
        self.entries[i].value = value;
        proof {
            lemma_entries_of(self.entries@);
            assert(self@ =~= old(self)@.update(i as int, (old(self)@[i as int].0, value@)));
        }
    }

    /// Puts the value under the key: in the place of the value that was
    /// there, or as a new last entry.
    pub fn insert(&mut self, key: String, value: Value)
        ensures
            final(self)@ == put(old(self)@, key@, value@),
            keys_distinct(old(self)@) ==> keys_distinct(final(self)@),
    {
        proof {
            if keys_distinct(self@) {
                lemma_put_distinct(self@, key@, value@);
            }
        }
        match self.find(key.as_str()) {
            Some(i) => {
                proof {
                    lemma_first_at_unique(self@, key@, i as int);
                }
                self.set(i, value);
            },
            None => {
                self.push(key, value);
            },
        }
    }

    /// Merges every entry of `overlay` into this object, in order.
    pub fn merge_from(&mut self, overlay: Object)
        ensures
            final(self)@ == merge_entries(old(self)@, overlay@),
        decreases overlay, 0int,
    {
        let ghost all = overlay@;
        let ghost items = overlay.entries@;
        proof {
            lemma_entries_of(items);
            assert(all.take(0) =~= Entries::empty());
        }
        for entry in it: overlay.entries
            invariant
                it.seq() == items,
                all.len() == items.len(),
                forall|j: int| 0 <= j < items.len() ==> all[j] == (#[trigger] items[j])@,
                forall|j: int|
                    0 <= j < items.len() ==> decreases_to!(overlay => #[trigger] items[j]),
                self@ == merge_entries(old(self)@, all.take(it.index() as int)),
        {
            proof {
                let k = it.index() as int;
                assert(entry == items[k]);
                assert(all.take(k + 1).drop_last() =~= all.take(k));
                assert(all.take(k + 1).last() == all[k]);
            }
            let Entry { key, value } = entry;
            self.merge_entry(key, value);
        }
        proof {
            assert(all.take(items.len() as int) =~= all);
        }
    }

    /// A copy of this object, with copies of all that it holds.
    pub fn deep_copy(&self) -> (copy: Object)
        ensures
            copy@ == self@,
        decreases self,
    {
        let mut copy = Object::new();
        let mut i: usize = 0;
        proof {
            lemma_entries_of(self.entries@);
        }
        while i < self.entries.len()
            invariant
                i <= self.entries.len(),
                self@.len() == self.entries@.len(),
                forall|j: int|
                    0 <= j < self.entries@.len() ==> (#[trigger] self@[j]) == (
                        self.entries@[j].key@,
                        self.entries@[j].value@,
                    ),
                copy@ == self@.take(i as int),
            decreases self.entries.len() - i,
        {
            let entry = &self.entries[i];
            let value = entry.value.deep_copy();
            copy.push(entry.key.clone(), value);
            i += 1;
            proof {
                assert(self@.take(i as int) =~= self@.take(i - 1).push(self@[i - 1]));
            }
        }
        proof {
            assert(self@.take(self.entries.len() as int) =~= self@);
        }
        copy
    }

    /// Appends `items` to the array under the entry at position `i`.
    pub fn extend_array(&mut self, i: usize, items: Vec<Value>)
        requires
            i < old(self)@.len(),
            old(self)@[i as int].1 is Array,
        ensures
            final(self)@ == old(self)@.update(
                i as int,
                (
                    old(self)@[i as int].0,
                    Tree::Array(old(self)@[i as int].1->Array_0 + trees_of(items@)),
                ),
            ),
    {
        proof {
            lemma_entries_of(self.entries@);
        }
        let ghost added = items@;
        let mut rest = items;
        match &mut self.entries[i].value {
            Value::Array(present) => {
                proof {
                    lemma_trees_of_concat(present@, added);
                }
                present.append(&mut rest);
            },
            _ => {},
        }
        proof {
            lemma_entries_of(self.entries@);
            assert(self@ =~= old(self)@.update(
                i as int,
                (
                    old(self)@[i as int].0,
                    Tree::Array(old(self)@[i as int].1->Array_0 + trees_of(added)),
                ),
            ));
        }
    }

    /// Merges one entry into this object: into the value under its key,
    /// or as a new last entry.
    pub fn merge_entry(&mut self, key: String, value: Value)
        ensures
            final(self)@ == merge_entry(old(self)@, key@, value@),
        decreases value, 2int,
    {
        match self.find(key.as_str()) {
            Some(i) => {
                proof {
                    lemma_first_at_unique(self@, key@, i as int);
                    lemma_entries_of(self.entries@);
                }
                self.entries[i].value.deep_merge(value);
                proof {
                    lemma_entries_of(self.entries@);
                    assert(self@ =~= merge_entry(old(self)@, key@, value@));
                }
            },
            None => {
                self.push(key, value);
            },
        }
    }
}

impl Value {
    /// Whether the value is null.
    pub fn is_null(&self) -> (b: bool)
        ensures
            b == (self@ is Null),
    {
        matches!(self, Value::Null)
    }

    /// Whether the value is a boolean.
    pub fn is_bool(&self) -> (b: bool)
        ensures
            b == (self@ is Bool),
    {
        matches!(self, Value::Bool(_))
    }

    /// Whether the value is an integer.
    pub fn is_int(&self) -> (b: bool)
        ensures
            b == (self@ is Int),
    {
        matches!(self, Value::Int(_))
    }

    /// Whether the value is a float.
    pub fn is_float(&self) -> (b: bool)
        ensures
            b == (self@ is Float),
    {
        matches!(self, Value::Float(_))
    }

    /// Whether the value is a string.
    pub fn is_string(&self) -> (b: bool)
        ensures
            b == (self@ is Str),
    {
        matches!(self, Value::String(_))
    }

    /// Whether the value is a symbol.
    pub fn is_symbol(&self) -> (b: bool)
        ensures
            b == (self@ is Symbol),
    {
        matches!(self, Value::Symbol(_))
    }

    /// Whether the value is an array.
    pub fn is_array(&self) -> (b: bool)
        ensures
            b == (self@ is Array),
    {
        matches!(self, Value::Array(_))
    }

    /// Whether the value is an object.
    pub fn is_object(&self) -> (b: bool)
        ensures
            b == (self@ is Object),
    {
        matches!(self, Value::Object(_))
    }

    /// The boolean that the value is, if it is one.
    pub fn as_bool(&self) -> (r: Option<bool>)
        ensures
            r == (match self@ {
                Tree::Bool(b) => Some(b),
                _ => None,
            }),
    {
        match self {
            Value::Bool(b) => Some(*b),
            _ => None,
        }
    }

    /// The integer that the value is, if it is one.
    pub fn as_int(&self) -> (r: Option<i64>)
        ensures
            r == (match self@ {
                Tree::Int(i) => Some(i),
                _ => None,
            }),
    {
        match self {
            Value::Int(i) => Some(*i),
            _ => None,
        }
    }

    /// The decimal text of a float, or of an integer taken as a float.
    pub fn as_float(&self) -> (r: Option<String>)
        ensures
            match self@ {
                Tree::Float(text) => r matches Some(t) && t@ == text,
                Tree::Int(i) => r matches Some(t) && t@ == crate::text::decimal_of(i as int),
                _ => r is None,
            },
    {
        match self {
            Value::Float(text) => Some(text.clone()),
            Value::Int(i) => {
                let mut text = String::new();
                push_decimal(&mut text, *i);
                assert(text@ =~= crate::text::decimal_of(*i as int));
                Some(text)
            },
            _ => None,
        }
    }

    /// The text of the string that the value is, if it is one.
    pub fn as_str(&self) -> (r: Option<&str>)
        ensures
            match self@ {
                Tree::Str(text) => r matches Some(t) && t@ == text,
                _ => r is None,
            },
    {
        match self {
            Value::String(text) => Some(text.as_str()),
            _ => None,
        }
    }

    /// The name of the symbol that the value is, if it is one.
    pub fn as_symbol(&self) -> (r: Option<&str>)
        ensures
            match self@ {
                Tree::Symbol(name) => r matches Some(t) && t@ == name,
                _ => r is None,
            },
    {
        match self {
            Value::Symbol(name) => Some(name.as_str()),
            _ => None,
        }
    }

    /// The items of the array that the value is, if it is one.
    pub fn as_array(&self) -> (r: Option<&Vec<Value>>)
        ensures
            match self@ {
                Tree::Array(items) => r matches Some(v) && trees_of(v@) == items,
                _ => r is None,
            },
    {
        match self {
            Value::Array(items) => {
                Some(items)
            },
            _ => None,
        }
    }

    /// The object that the value is, if it is one.
    pub fn as_object(&self) -> (r: Option<&Object>)
        ensures
            match self@ {
                Tree::Object(entries) => r matches Some(o) && o@ == entries,
                _ => r is None,
            },
    {
        match self {
            Value::Object(object) => Some(object),
            _ => None,
        }
    }

    /// Merges `other` into this value.
    pub fn deep_merge(&mut self, other: Value)
        ensures
            final(self)@ == merge(old(self)@, other@),
            old(self)@.well_formed() && other@.well_formed() ==> final(self)@.well_formed(),
        decreases other, 1int,
    {
        proof {
            if self@.well_formed() && other@.well_formed() {
                lemma_merge_well_formed(self@, other@);
            }
        }
        match other {
            Value::Object(overlay) => {
                match self {
                    Value::Object(base) => {
                        base.merge_from(overlay);
                    },
                    _ => {
                        *self = Value::Object(overlay);
                    },
                }
            },
            _ => {
                *self = other;
            },
        }
    }
    /// A copy of this value, with copies of all that it holds.
    pub fn deep_copy(&self) -> (copy: Value)
        ensures
            copy@ == self@,
        decreases self,
    {
        match self {
            Value::Null => Value::Null,
            Value::Bool(b) => Value::Bool(*b),
            Value::Int(i) => Value::Int(*i),
            Value::Float(text) => Value::Float(text.clone()),
            Value::String(text) => Value::String(text.clone()),
            Value::Symbol(name) => Value::Symbol(name.clone()),
            Value::Ref(name) => Value::Ref(name.clone()),
            Value::Array(items) => {
                let mut copies: Vec<Value> = Vec::new();
                let mut i: usize = 0;
                while i < items.len()
                    invariant
                        i <= items.len(),
                        copies@.len() == i,
                        forall|j: int| 0 <= j < items.len() ==> decreases_to!(self => #[trigger] items@[j]),
                        trees_of(copies@) == trees_of(items@.take(i as int)),
                    decreases items.len() - i,
                {
                    let copy = items[i].deep_copy();
                    proof {
                        lemma_trees_of_push(copies@, copy);
                        lemma_trees_of_push(items@.take(i as int), items@[i as int]);
                        assert(items@.take(i + 1) =~= items@.take(i as int).push(items@[i as int]));
                    }
                    copies.push(copy);
                    i += 1;
                }
                proof {
                    assert(items@.take(items.len() as int) =~= items@);
                }
                Value::Array(copies)
            },
            Value::Object(object) => Value::Object(object.deep_copy()),
        }
    }

    /// Appends the one-line text of this value to `out`.
    pub fn write_to(&self, out: &mut String)
        ensures
            final(out)@ == old(out)@ + display(self@),
        decreases self,
    {
        match self {
            Value::Null => out.append("null"),
            Value::Bool(b) => if *b {
                out.append("true")
            } else {
                out.append("false")
            },
            Value::Int(i) => push_decimal(out, *i),
            Value::Float(text) => out.append(text.as_str()),
            Value::String(text) => out.append(text.as_str()),
            Value::Symbol(name) => {
                out.append(":");
                out.append(name.as_str());
                assert(out@ =~= old(out)@ + display(self@));
            },
            Value::Ref(name) => {
                out.append("$");
                out.append(name.as_str());
                assert(out@ =~= old(out)@ + display(self@));
            },
            Value::Array(items) => {
                out.append("[");
                let ghost start = out@;
                let mut i: usize = 0;
                proof {
                    lemma_trees_of(items@);
                    assert(trees_of(items@).take(0) =~= Seq::<Tree>::empty());
                    assert(start + Seq::<char>::empty() =~= start);
                }
                while i < items.len()
                    invariant
                        i <= items.len(),
                        trees_of(items@).len() == items@.len(),
                        forall|j: int|
                            0 <= j < items@.len() ==> (#[trigger] trees_of(items@)[j])
                                == items@[j]@,
                        forall|j: int| 0 <= j < items.len() ==> decreases_to!(self => #[trigger] items@[j]),
                        out@ == start + display_items(trees_of(items@).take(i as int)),
                    decreases items.len() - i,
                {
                    if i > 0 {
                        out.append(", ");
                    }
                    items[i].write_to(out);
                    i += 1;
                    proof {
                        let all = trees_of(items@);
                        assert(all.take(i as int).drop_last() =~= all.take(i - 1));
                        assert(all.take(i as int).last() == all[i - 1]);
                        assert(out@ =~= start + display_items(all.take(i as int)));
                    }
                }
                out.append("]");
                proof {
                    assert(trees_of(items@).take(items.len() as int) =~= trees_of(items@));
                    assert(out@ =~= old(out)@ + display(self@));
                }
            },
            Value::Object(object) => {
                out.append("{");
                let ghost start = out@;
                let mut i: usize = 0;
                proof {
                    lemma_entries_of(object.entries@);
                    assert(object@.take(0) =~= Entries::empty());
                    assert(start + Seq::<char>::empty() =~= start);
                }
                while i < object.entries.len()
                    invariant
                        i <= object.entries.len(),
                        object@.len() == object.entries@.len(),
                        forall|j: int|
                            0 <= j < object.entries@.len() ==> (#[trigger] object@[j])
                                == object.entries@[j]@,
                        forall|j: int|
                            0 <= j < object.entries@.len() ==> decreases_to!(self => #[trigger] object.entries@[j]),
                        out@ == start + display_entries(object@.take(i as int)),
                    decreases object.entries.len() - i,
                {
                    if i > 0 {
                        out.append(", :");
                    } else {
                        out.append(":");
                    }
                    let entry = &object.entries[i];
                    out.append(entry.key.as_str());
                    out.append(" ");
                    entry.value.write_to(out);
                    i += 1;
                    proof {
                        let all = object@;
                        assert(all.take(i as int).drop_last() =~= all.take(i - 1));
                        assert(all.take(i as int).last() == all[i - 1]);
                        assert(out@ =~= start + display_entries(all.take(i as int)));
                    }
                }
                out.append("}");
                proof {
                    assert(object@.take(object.entries.len() as int) =~= object@);
                    assert(out@ =~= old(out)@ + display(self@));
                }
            },
        }
    }

    /// The one-line text of this value.
    pub fn to_string(&self) -> (text: String)
        ensures
            text@ == display(self@),
    {
        let mut text = String::new();
        self.write_to(&mut text);
        assert(text@ =~= display(self@));
        text
    }
}

impl Clone for Value {
    fn clone(&self) -> (copy: Value)
        ensures
            copy@ == self@,
    {
        self.deep_copy()
    }
}

impl Clone for Entry {
    fn clone(&self) -> (copy: Entry)
        ensures
            copy@ == self@,
    {
        Entry { key: self.key.clone(), value: self.value.deep_copy() }
    }
}

impl Clone for Object {
    fn clone(&self) -> (copy: Object)
        ensures
            copy@ == self@,
    {
        self.deep_copy()
    }
}

} // verus!
