//! `cson_edit` -- a CSON parser and editor that preserves comments and
//! formatting across a parse/edit/write cycle.
//!
//! Pipeline: [`lexer`] turns text into a flat token/trivia stream,
//! [`trivia`] re-anchors comments onto the token that starts their line,
//! [`parser`] builds the [`Document`] tree (latching a first-match
//! [`Style`]), and [`writer`] renders a tree back to text using only that
//! style. [`merge`] folds a freshly built, comment-free tree into an
//! existing one so that unchanged nodes -- and their comments -- are left
//! alone; [`number`] compares number literals by value. [`model`] holds the
//! mathematical models every contract is stated over, and [`quoting`] shows
//! that a string the writer quotes reads back unchanged.

use vstd::prelude::*;

pub mod fixpoint;
pub mod lexer;
pub mod literals;
pub mod merge;
pub mod model;
pub mod number;
pub mod parser;
pub mod quoting;
pub mod restyle;
pub mod roundtrip;
pub mod style;
pub mod text;
pub mod trivia;
pub mod writer;

pub use model::{DocumentM, EntryM, NodeM, ValueM};
pub use style::{Indent, IndentChar, KeyStyle, Quote, Separator, Style};

use crate::model::{
    bare_node, element, err_matches, first_key, key_of, lemma_first_key_none, lemma_first_key_unique,
    lookup, new_entry, with_prefix_before, without_entry, without_item,
};
use crate::text::str_eq;
use crate::style::empty_style;

verus! {

/// A parsed CSON document: a value tree plus the trivia needed to write it
/// back out with comments intact.
#[derive(Debug)]
pub struct Document {
    pub(crate) root: Node,
    /// Trivia after the last token, up to end of file.
    pub(crate) suffix: String,
    /// Whether the source omitted the outer `{` `}` (bare object root).
    pub(crate) bare_root: bool,
    pub(crate) style: Style,
}

/// A single value together with the trivia (whitespace + `#` comments)
/// that preceded it in the source.
#[derive(Debug)]
pub struct Node {
    /// Raw whitespace/comment text before this node. Never contains `,`,
    /// `:` or `=` -- those are emitted by the writer.
    pub(crate) prefix: String,
    pub(crate) value: Value,
}

/// A CSON value: what [`Node::value`] holds, once its trivia (comments,
/// whitespace) has been set aside.
#[derive(Debug)]
pub enum Value {
    /// `null`.
    Null,
    /// `true` or `false`.
    Bool(bool),
    /// Any numeric literal, kept as raw text -- see [`Number`].
    Number(Number),
    /// Any string, regardless of how it was quoted -- see [`CsonStr`].
    Str(CsonStr),
    /// `[ ... ]`.
    Array {
        /// The array's elements, in source (or insertion) order.
        items: Vec<Node>,
        /// Trivia before the closing `]`.
        trailing: String,
    },
    /// `{ ... }`, or a bare (brace-less) top-level document.
    Object {
        /// The object's key/value pairs, in source (or insertion) order.
        /// Duplicate keys are preserved as separate entries, not merged.
        entries: Vec<Entry>,
        /// Trivia before the closing `}`.
        trailing: String,
    },
}

/// One `key: value` (or `key = value`) pair inside a [`Value::Object`].
///
/// The key is a full [`Node`], not a bare string, so a comment
/// immediately before the key has somewhere to live.
#[derive(Debug)]
pub struct Entry {
    pub(crate) key: Node,
    pub(crate) value: Node,
}

/// A decoded CSON string. Quoting style is not stored here: the writer
/// always re-renders according to `Style`, never per-node layout.
#[derive(Debug, Clone)]
pub struct CsonStr {
    pub(crate) value: String,
}

/// A raw number literal. Kept as text (not a float) so integers beyond
/// 2^53 survive a round trip.
#[derive(Debug)]
pub struct Number {
    pub(crate) raw: String,
}

/// Error produced while parsing a CSON document: `line`/`column` point
/// at the offending character, 1-indexed.
#[derive(Debug, Clone, PartialEq, Eq)]
pub struct ParseError {
    /// Human-readable description of what went wrong.
    pub message: String,
    /// 1-indexed source line.
    pub line: usize,
    /// 1-indexed source column (in characters).
    pub column: usize,
}

impl View for CsonStr {
    type V = Seq<char>;

    closed spec fn view(&self) -> Seq<char> {
        self.value@
    }
}

impl Number {
    /// A number always holds a valid number literal: the lexer only makes
    /// number tokens of valid literals, and [`Number::from_literal`] checks.
    #[verifier::type_invariant]
    spec fn holds_a_literal(self) -> bool {
        crate::number::valid_literal(self.raw@)
    }
}

impl View for Number {
    type V = Seq<char>;

    closed spec fn view(&self) -> Seq<char> {
        self.raw@
    }
}

/// The model of a node.
pub closed spec fn node_view(n: Node) -> NodeM
    decreases n,
{
    NodeM { prefix: n.prefix@, value: value_view(n.value) }
}

/// The model of an entry.
pub closed spec fn entry_view(e: Entry) -> EntryM
    decreases e,
{
    EntryM { key: node_view(e.key), value: node_view(e.value) }
}

/// The model of a value.
pub closed spec fn value_view(v: Value) -> ValueM
    decreases v,
{
    match v {
        Value::Null => ValueM::Null,
        Value::Bool(b) => ValueM::Bool(b),
        Value::Number(n) => ValueM::Number(n.raw@),
        Value::Str(s) => ValueM::Str(s.value@),
        Value::Array { items, trailing } => ValueM::Array {
            items: Seq::new(
                items@.len(),
                |i: int|
                    if 0 <= i < items@.len() {
                        node_view(items@[i])
                    } else {
                        NodeM { prefix: Seq::empty(), value: ValueM::Null }
                    },
            ),
            trailing: trailing@,
        },
        Value::Object { entries, trailing } => ValueM::Object {
            entries: Seq::new(
                entries@.len(),
                |i: int|
                    if 0 <= i < entries@.len() {
                        entry_view(entries@[i])
                    } else {
                        EntryM {
                            key: NodeM { prefix: Seq::empty(), value: ValueM::Null },
                            value: NodeM { prefix: Seq::empty(), value: ValueM::Null },
                        }
                    },
            ),
            trailing: trailing@,
        },
    }
}

impl View for Node {
    type V = NodeM;

    open spec fn view(&self) -> NodeM {
        node_view(*self)
    }
}

impl View for Entry {
    type V = EntryM;

    open spec fn view(&self) -> EntryM {
        entry_view(*self)
    }
}

impl View for Value {
    type V = ValueM;

    open spec fn view(&self) -> ValueM {
        value_view(*self)
    }
}

impl View for Document {
    type V = DocumentM;

    closed spec fn view(&self) -> DocumentM {
        DocumentM { root: self.root@, suffix: self.suffix@, bare_root: self.bare_root, style: self.style }
    }
}

pub(crate) broadcast proof fn lemma_node_view(n: Node)
    ensures
        #[trigger] node_view(n) == (NodeM { prefix: n.prefix@, value: value_view(n.value) }),
{
}

pub(crate) broadcast proof fn lemma_entry_view(e: Entry)
    ensures
        #[trigger] entry_view(e) == (EntryM { key: node_view(e.key), value: node_view(e.value) }),
{
}

pub(crate) broadcast proof fn lemma_value_view_scalar(v: Value)
    ensures
        (#[trigger] value_view(v) is Null <==> v is Null),
        (value_view(v) is Bool <==> v is Bool),
        (value_view(v) is Number <==> v is Number),
        (value_view(v) is Str <==> v is Str),
        (value_view(v) is Array <==> v is Array),
        (value_view(v) is Object <==> v is Object),
        v matches Value::Bool(b) ==> value_view(v) == ValueM::Bool(b),
        v matches Value::Number(n) ==> value_view(v) == ValueM::Number(n.raw@),
        v matches Value::Str(s) ==> value_view(v) == ValueM::Str(s.value@),
        v matches Value::Array { items, trailing } ==> value_view(v)->Array_trailing == trailing@
            && value_view(v)->Array_items.len() == items@.len()
            && (forall|i: int| 0 <= i < items@.len() ==> #[trigger] value_view(v)->Array_items[i] == node_view(items@[i])),
        v matches Value::Object { entries, trailing } ==> value_view(v)->Object_trailing == trailing@
            && value_view(v)->Object_entries.len() == entries@.len()
            && (forall|i: int| 0 <= i < entries@.len() ==> #[trigger] value_view(v)->Object_entries[i] == entry_view(entries@[i])),
{
}

/// The models of a sequence of nodes.
pub open spec fn nodes_model(s: Seq<Node>) -> Seq<NodeM> {
    s.map_values(|n: Node| n@)
}

/// The models of a sequence of entries.
pub open spec fn entries_model(s: Seq<Entry>) -> Seq<EntryM> {
    s.map_values(|e: Entry| e@)
}

pub(crate) broadcast proof fn lemma_value_view_array(items: Vec<Node>, trailing: String)
    ensures
        #[trigger] value_view(Value::Array { items, trailing }) == (ValueM::Array { items: nodes_model(items@), trailing: trailing@ }),
{
    let v = Value::Array { items, trailing };
    assert(value_view(v)->Array_items =~= nodes_model(items@));
}

pub(crate) broadcast proof fn lemma_value_view_object(entries: Vec<Entry>, trailing: String)
    ensures
        #[trigger] value_view(Value::Object { entries, trailing }) == (ValueM::Object { entries: entries_model(entries@), trailing: trailing@ }),
{
    let v = Value::Object { entries, trailing };
    assert(value_view(v)->Object_entries =~= entries_model(entries@));
}

pub(crate) broadcast proof fn lemma_doc_view(d: Document)
    ensures
        #[trigger] d@ == (DocumentM { root: d.root@, suffix: d.suffix@, bare_root: d.bare_root, style: d.style }),
{
}

pub(crate) broadcast proof fn lemma_str_view(s: CsonStr)
    ensures
        #[trigger] s@ == s.value@,
{
}

pub(crate) broadcast proof fn lemma_number_view(n: Number)
    ensures
        #[trigger] n@ == n.raw@,
{
}

pub(crate) broadcast proof fn lemma_entries_model_update(s: Seq<Entry>, i: int, e: Entry)
    requires
        0 <= i < s.len(),
    ensures
        #[trigger] entries_model(s.update(i, e)) == entries_model(s).update(i, e@),
{
    assert(entries_model(s.update(i, e)) =~= entries_model(s).update(i, e@));
}

pub(crate) broadcast proof fn lemma_nodes_model_update(s: Seq<Node>, i: int, n: Node)
    requires
        0 <= i < s.len(),
    ensures
        #[trigger] nodes_model(s.update(i, n)) == nodes_model(s).update(i, n@),
{
    assert(nodes_model(s.update(i, n)) =~= nodes_model(s).update(i, n@));
}

pub(crate) broadcast group group_view {
    lemma_entries_model_update,
    lemma_nodes_model_update,
    lemma_node_view,
    lemma_entry_view,
    lemma_value_view_scalar,
    lemma_value_view_array,
    lemma_value_view_object,
    lemma_doc_view,
    lemma_str_view,
    lemma_number_view,
}


// ---------------------------------------------------------------------
// Strings and numbers.

impl CsonStr {
    /// Builds a string value from `s`. Always valid -- any content is
    /// fine, since the writer quotes and escapes it as needed.
    pub fn new(s: &str) -> (r: CsonStr)
        ensures
            r@ == s@,
    {
        CsonStr { value: String::from_str(s) }
    }

    /// The decoded string content (escapes already resolved).
    pub fn as_str(&self) -> (r: &str)
        ensures
            r@ == self@,
    {
        self.value.as_str()
    }
}

impl Number {
    /// The number's literal text, exactly as it appeared in the source
    /// (or was formatted on write) -- e.g. `"1.50"`, not `"1.5"`.
    pub fn as_str(&self) -> (r: &str)
        ensures
            r@ == self@,
            crate::number::valid_literal(r@),
    {
        proof {
            use_type_invariant(self);
        }
        self.raw.as_str()
    }
}

// ---------------------------------------------------------------------
// Nodes and entries.

impl Node {
    /// Builds a new node with an empty prefix (no comment) around `value`.
    pub fn new(value: Value) -> (r: Node)
        ensures
            r@ == bare_node(value@),
    {
        Node { prefix: String::new(), value }
    }

    /// This node's value.
    pub fn value(&self) -> (r: &Value)
        ensures
            r@ == self@.value,
    {
        &self.value
    }

    /// Mutable access to this node's value. The node's `prefix` (and thus
    /// any comment attached to it) is untouched by mutating through this
    /// reference.
    pub fn value_mut(&mut self) -> (r: &mut Value)
        ensures
            r@ == old(self)@.value,
            final(self)@ == (NodeM { prefix: old(self)@.prefix, value: final(r)@ }),
    {
        &mut self.value
    }

    /// Replaces this node's value, keeping its existing `prefix` (and thus
    /// any comment attached to it) untouched.
    pub fn set_value(&mut self, value: Value)
        ensures
            final(self)@ == (NodeM { prefix: old(self)@.prefix, value: value@ }),
    {
        self.value = value;
    }

    /// Discards this node's prefix and returns its value.
    pub fn into_value(self) -> (r: Value)
        ensures
            r@ == self@.value,
    {
        self.value
    }

    /// The raw whitespace/comment text preceding this node.
    pub fn prefix(&self) -> (r: &str)
        ensures
            r@ == self@.prefix,
    {
        self.prefix.as_str()
    }

    /// Sets the raw prefix (whitespace + `#` comments) for this node.
    ///
    /// Returns an error, and leaves the node alone, if `text` contains
    /// anything other than whitespace and `#`-comments, since that would
    /// silently produce invalid CSON.
    pub fn set_prefix(&mut self, text: &str) -> (r: Result<(), &'static str>)
        ensures
            r is Ok <==> trivia::is_valid_prefix_spec(text@),
            r is Ok ==> final(self)@ == (NodeM { prefix: text@, value: old(self)@.value }),
            r is Err ==> final(self)@ == old(self)@,
    {
        if !trivia::is_valid_prefix(text) {
            return Err("prefix may only contain whitespace and '#' comments");
        }
        self.prefix = String::from_str(text);
        Ok(())
    }
}

impl Entry {
    /// This entry's key, as a full node (so a comment before the key has a
    /// prefix slot to live in).
    pub fn key(&self) -> (r: &Node)
        ensures
            r@ == self@.key,
    {
        &self.key
    }

    /// Mutable access to this entry's key node -- e.g. to rename a key in
    /// place while keeping any comment attached to it.
    pub fn key_mut(&mut self) -> (r: &mut Node)
        ensures
            r@ == old(self)@.key,
            final(self)@ == (EntryM { key: final(r)@, value: old(self)@.value }),
    {
        &mut self.key
    }

    /// This entry's value.
    pub fn value(&self) -> (r: &Node)
        ensures
            r@ == self@.value,
    {
        &self.value
    }

    /// Mutable access to this entry's value node -- the way to change one
    /// field's value while leaving its comment untouched.
    pub fn value_mut(&mut self) -> (r: &mut Node)
        ensures
            r@ == old(self)@.value,
            final(self)@ == (EntryM { key: old(self)@.key, value: final(r)@ }),
    {
        &mut self.value
    }

    /// The key's text, if it's a string (which, for a parsed document, it
    /// always is).
    pub fn key_str(&self) -> (r: Option<&str>)
        ensures
            match r {
                Some(s) => key_of(self@) == Some(s@),
                None => key_of(self@) is None,
            },
    {
        match &self.key.value {
            Value::Str(s) => Some(s.as_str()),
            _ => None,
        }
    }

    /// Whether this entry's key is the string `key`.
    fn key_is(&self, key: &str) -> (r: bool)
        ensures
            r == (key_of(self@) == Some(key@)),
    {
        match &self.key.value {
            Value::Str(s) => str_eq(s.value.as_str(), key),
            _ => false,
        }
    }
}

// ---------------------------------------------------------------------
// Editing values.

/// Index of the first entry of `entries` whose key is `key`.
pub(crate) fn find_key(entries: &Vec<Entry>, key: &str) -> (r: Option<usize>)
    ensures
        match r {
            Some(i) => first_key(entries_model(entries@), key@) == Some(i as int) && i < entries@.len(),
            None => first_key(entries_model(entries@), key@) is None,
        },
{
    let ghost m = entries_model(entries@);
    let mut i: usize = 0;
    while i < entries.len()
        invariant
            i <= entries@.len(),
            m == entries_model(entries@),
            forall|j: int| 0 <= j < i ==> #[trigger] key_of(m[j]) != Some(key@),
        decreases entries.len() - i,
    {
        if entries[i].key_is(key) {
            proof {
                lemma_first_key_unique(m, key@, i as int);
            }
            return Some(i);
        }
        i += 1;
    }
    proof {
        lemma_first_key_none(m, key@);
    }
    None
}

/// Concatenates two trivia strings in source order, reusing whichever side
/// is the only non-empty one.
pub(crate) fn concat_prefix(a: String, b: String) -> (r: String)
    ensures
        r@ == a@ + b@,
{
    if a.as_str().is_empty() {
        assert(a@ + b@ =~= b@);
        return b;
    }
    if b.as_str().is_empty() {
        assert(a@ + b@ =~= a@);
        return a;
    }
    let mut s = a;
    s.append(b.as_str());
    s
}

impl Value {
    /// Looks up `key` among this object's entries, returning its value
    /// node. `None` if `self` isn't [`Value::Object`], or has no entry with
    /// that key. Entries are searched in source order, so a duplicate key
    /// resolves to the first match.
    pub fn get(&self, key: &str) -> (r: Option<&Node>)
        ensures
            match r {
                Some(n) => lookup(self@, key@) == Some(n@),
                None => lookup(self@, key@) is None,
            },
    {
        broadcast use group_view;
        match self {
            Value::Object { entries, .. } => match find_key(entries, key) {
                Some(i) => Some(&entries[i].value),
                None => None,
            },
            _ => None,
        }
    }

    /// Mutable version of [`Value::get`]: whatever is done through the
    /// returned reference lands in that entry's value, and nowhere else.
    pub fn get_mut(&mut self, key: &str) -> (r: Option<&mut Node>)
        ensures
            match old(self)@ {
                ValueM::Object { entries, trailing } => match first_key(entries, key@) {
                    Some(i) => r is Some && (*r.unwrap())@ == entries[i].value
                        && final(self)@ == (ValueM::Object {
                            entries: entries.update(i, EntryM { key: entries[i].key, value: (*final(r.unwrap()))@ }),
                            trailing,
                        }),
                    None => r is None && final(self)@ == old(self)@,
                },
                _ => r is None && final(self)@ == old(self)@,
            },
    {
        broadcast use group_view;
        match self {
            Value::Object { entries, trailing } => match find_key(entries, key) {
                Some(i) => Some(&mut entries[i].value),
                None => None,
            },
            _ => None,
        }
    }
    /// Appends a new `key: value` entry to this object, after every
    /// existing one -- including any existing entry with the same key: this
    /// never deduplicates. The new entry's key node has an empty prefix.
    ///
    /// Returns `Err`, and leaves `self` alone, if `self` isn't
    /// [`Value::Object`] -- this never changes `self`'s variant.
    pub fn insert(&mut self, key: &str, value: Node) -> (r: Result<(), &'static str>)
        ensures
            match old(self)@ {
                ValueM::Object { entries, trailing } => r is Ok && final(self)@ == (ValueM::Object {
                    entries: entries.push(new_entry(key@, value@)),
                    trailing,
                }),
                _ => r is Err && final(self)@ == old(self)@,
            },
    {
        broadcast use group_view;
        match self {
            Value::Object { entries, .. } => {
                let ghost before = entries@;
                entries.push(Entry { key: Node::new(Value::Str(CsonStr::new(key))), value });
                proof {
                    assert(entries_model(entries@) =~= entries_model(before).push(new_entry(key@, value@)));
                }
                Ok(())
            },
            _ => Err("Value::insert called on a value that is not an object"),
        }
    }

    /// Removes and returns the entry for `key`, if `self` is
    /// [`Value::Object`] and has one (the first match, if the key is
    /// duplicated).
    ///
    /// The removed entry's comments (its key's prefix, then its value's)
    /// are not discarded: they move in front of the following entry's key
    /// prefix, or of the object's `trailing` slot if the removed entry was
    /// last. The returned node's own prefix is empty, since its content has
    /// already been relocated.
    pub fn remove(&mut self, key: &str) -> (r: Option<Node>)
        ensures
            match old(self)@ {
                ValueM::Object { entries, trailing } => match first_key(entries, key@) {
                    Some(i) => r matches Some(n) && n@ == bare_node(entries[i].value.value)
                        && final(self)@ == without_entry(entries, trailing, i),
                    None => r is None && final(self)@ == old(self)@,
                },
                _ => r is None && final(self)@ == old(self)@,
            },
    {
        broadcast use group_view;
        match self {
            Value::Object { entries, trailing } => {
                let idx = match find_key(entries, key) {
                    Some(i) => i,
                    None => return None,
                };
                let ghost m = entries_model(entries@);
                let Entry { key: removed_key, value: removed_value } = entries.remove(idx);
                let moved = concat_prefix(removed_key.prefix, removed_value.prefix);
                proof {
                    assert(entries_model(entries@) =~= m.remove(idx as int));
                }
                let ghost rest = entries_model(entries@);
                let ghost rest_exec = entries@;
                if idx < entries.len() {
                    let mut next_prefix = String::new();
                    std::mem::swap(&mut next_prefix, &mut entries[idx].key.prefix);
                    entries[idx].key.prefix = concat_prefix(moved, next_prefix);
                    proof {
                        assert(entries@ =~= rest_exec.update(idx as int, entries@[idx as int]));
                        assert(entries@[idx as int]@ == EntryM {
                            key: with_prefix_before(m[idx as int].key.prefix + m[idx as int].value.prefix, rest[idx as int].key),
                            value: rest[idx as int].value,
                        });
                    }
                } else {
                    let mut old_trailing = String::new();
                    std::mem::swap(&mut old_trailing, trailing);
                    *trailing = concat_prefix(moved, old_trailing);
                }
                Some(Node { prefix: String::new(), value: removed_value.value })
            },
            _ => None,
        }
    }

    /// Element at `index`, if `self` is [`Value::Array`] and `index` is in
    /// bounds.
    pub fn get_index(&self, index: usize) -> (r: Option<&Node>)
        ensures
            match r {
                Some(n) => element(self@, index as int) == Some(n@),
                None => element(self@, index as int) is None,
            },
    {
        broadcast use group_view;
        match self {
            Value::Array { items, .. } => if index < items.len() {
                Some(&items[index])
            } else {
                None
            },
            _ => None,
        }
    }

    /// Mutable version of [`Value::get_index`].
    pub fn get_index_mut(&mut self, index: usize) -> (r: Option<&mut Node>)
        ensures
            match old(self)@ {
                ValueM::Array { items, trailing } => if index < items.len() {
                    r is Some && (*r.unwrap())@ == items[index as int]
                        && final(self)@ == (ValueM::Array {
                            items: items.update(index as int, (*final(r.unwrap()))@),
                            trailing,
                        })
                } else {
                    r is None && final(self)@ == old(self)@
                },
                _ => r is None && final(self)@ == old(self)@,
            },
    {
        broadcast use group_view;
        match self {
            Value::Array { items, .. } => if index < items.len() {
                Some(&mut items[index])
            } else {
                None
            },
            _ => None,
        }
    }

    /// Appends `value` to this array, after every existing element.
    ///
    /// Returns `Err`, and leaves `self` alone, if `self` isn't
    /// [`Value::Array`] -- this never changes `self`'s variant.
    pub fn push(&mut self, value: Node) -> (r: Result<(), &'static str>)
        ensures
            match old(self)@ {
                ValueM::Array { items, trailing } => r is Ok && final(self)@ == (ValueM::Array {
                    items: items.push(value@),
                    trailing,
                }),
                _ => r is Err && final(self)@ == old(self)@,
            },
    {
        broadcast use group_view;
        match self {
            Value::Array { items, .. } => {
                let ghost before = items@;
                items.push(value);
                proof {
                    assert(nodes_model(items@) =~= nodes_model(before).push(value@));
                }
                Ok(())
            },
            _ => Err("Value::push called on a value that is not an array"),
        }
    }

    /// Removes and returns the element at `index`, if `self` is
    /// [`Value::Array`] and `index` is in bounds.
    ///
    /// The removed element's prefix moves in front of the next element's
    /// prefix, or of the array's `trailing` slot if it was last; the
    /// returned node's own prefix is empty.
    pub fn remove_index(&mut self, index: usize) -> (r: Option<Node>)
        ensures
            match old(self)@ {
                ValueM::Array { items, trailing } => if index < items.len() {
                    r matches Some(n) && n@ == bare_node(items[index as int].value)
                        && final(self)@ == without_item(items, trailing, index as int)
                } else {
                    r is None && final(self)@ == old(self)@
                },
                _ => r is None && final(self)@ == old(self)@,
            },
    {
        broadcast use group_view;
        match self {
            Value::Array { items, trailing } => {
                if index >= items.len() {
                    return None;
                }
                let ghost m = nodes_model(items@);
                let removed = items.remove(index);
                proof {
                    assert(nodes_model(items@) =~= m.remove(index as int));
                }
                let moved = removed.prefix;
                let ghost rest = nodes_model(items@);
                let ghost rest_exec = items@;
                if index < items.len() {
                    let mut next_prefix = String::new();
                    std::mem::swap(&mut next_prefix, &mut items[index].prefix);
                    items[index].prefix = concat_prefix(moved, next_prefix);
                    proof {
                        assert(items@ =~= rest_exec.update(index as int, items@[index as int]));
                        assert(items@[index as int]@ == with_prefix_before(m[index as int].prefix, rest[index as int]));
                    }
                } else {
                    let mut old_trailing = String::new();
                    std::mem::swap(&mut old_trailing, trailing);
                    *trailing = concat_prefix(moved, old_trailing);
                }
                Some(Node { prefix: String::new(), value: removed.value })
            },
            _ => None,
        }
    }
}

// ---------------------------------------------------------------------
// Documents.

impl Document {
    /// The document's root node (an object, or an array for a bracketed
    /// top level -- see [`Document::bare_root`]).
    pub fn root(&self) -> (r: &Node)
        ensures
            r@ == self@.root,
    {
        &self.root
    }

    /// Mutable access to the root node, for hand-editing a value while
    /// keeping every other node's `prefix` (and thus every comment)
    /// intact.
    pub fn root_mut(&mut self) -> (r: &mut Node)
        ensures
            r@ == old(self)@.root,
            final(self)@ == (DocumentM { root: final(r)@, ..old(self)@ }),
    {
        &mut self.root
    }

    /// Trivia (whitespace/comments) after the last token, up to end of
    /// file.
    pub fn suffix(&self) -> (r: &str)
        ensures
            r@ == self@.suffix,
    {
        self.suffix.as_str()
    }

    /// Whether the source omitted the outer `{` `}` (a bare object root).
    /// Never `true` for an array: CSON only allows a bare root for objects.
    pub fn bare_root(&self) -> (r: bool)
        ensures
            r == self@.bare_root,
    {
        self.bare_root
    }

    /// The layout choices [`Document::to_cson_string`] renders with.
    pub fn style(&self) -> (r: &Style)
        ensures
            *r == self@.style,
    {
        &self.style
    }

    /// Overrides this document's [`Style`].
    pub fn set_style(&mut self, style: Style)
        ensures
            final(self)@ == (DocumentM { style, ..old(self)@ }),
    {
        self.style = style;
    }

    /// A fresh document around `root`: no suffix trivia, braced (not a
    /// bare root), and the default [`Style`] -- what a tree built from a
    /// typed value (rather than parsed from text) is written with.
    pub fn from_node(root: Node) -> (r: Document)
        ensures
            r@ == (DocumentM { root: root@, suffix: Seq::empty(), bare_root: false, style: style::empty_style() }),
    {
        Document { root, suffix: String::new(), bare_root: false, style: Style::default() }
    }

    /// Serializes the document back to CSON text.
    pub fn to_cson_string(&self) -> (r: String)
        requires
            writer::doc_writable(self@),
        ensures
            r@ == writer::write_spec(self@),
    {
        writer::write_document(self)
    }
}

/// Parses a CSON document from text, preserving comments for a later
/// write.
pub fn parse(input: &str) -> (r: Result<Document, ParseError>)
    requires
        input@.len() + 3 < usize::MAX,
    ensures
        match (r, parser::parse_spec(input@)) {
            (Ok(d), Ok(m)) => d@ == m,
            (Err(e), Err(em)) => err_matches(e, parser::strip_bom(input@), em),
            _ => false,
        },
{
    parser::parse_document(input)
}

} // verus!
