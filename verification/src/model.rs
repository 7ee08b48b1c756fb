//! Mathematical models of the document tree: the same shape as
//! [`crate::Node`]/[`crate::Value`]/[`crate::Entry`]/[`crate::Document`],
//! with every string taken as its sequence of characters. Contracts
//! throughout the crate are stated over these.

use vstd::prelude::*;
use crate::style::Style;
use crate::trivia::{is_valid_prefix_spec, lemma_valid_prefix_concat, valid_prefix_from};

verus! {

/// Model of [`crate::Value`].
pub enum ValueM {
    Null,
    Bool(bool),
    Number(Seq<char>),
    Str(Seq<char>),
    Array { items: Seq<NodeM>, trailing: Seq<char> },
    Object { entries: Seq<EntryM>, trailing: Seq<char> },
}

/// Model of [`crate::Node`].
pub struct NodeM {
    pub prefix: Seq<char>,
    pub value: ValueM,
}

/// Model of [`crate::Entry`].
pub struct EntryM {
    pub key: NodeM,
    pub value: NodeM,
}

/// Model of [`crate::Document`].
pub struct DocumentM {
    pub root: NodeM,
    pub suffix: Seq<char>,
    pub bare_root: bool,
    pub style: Style,
}

/// A node with no trivia around `value`.
pub open spec fn bare_node(value: ValueM) -> NodeM {
    NodeM { prefix: Seq::empty(), value }
}

/// The key text of an entry, if its key is a string.
pub open spec fn key_of(e: EntryM) -> Option<Seq<char>> {
    match e.key.value {
        ValueM::Str(s) => Some(s),
        _ => None,
    }
}

/// Some entry of `entries` has key `key`.
pub open spec fn has_key(entries: Seq<EntryM>, key: Seq<char>) -> bool {
    exists|i: int| 0 <= i < entries.len() && #[trigger] key_of(entries[i]) == Some(key)
}

/// `i` is the first entry of `entries` with key `key`.
pub open spec fn is_first_key(entries: Seq<EntryM>, key: Seq<char>, i: int) -> bool {
    &&& 0 <= i < entries.len()
    &&& key_of(entries[i]) == Some(key)
    &&& forall|j: int| 0 <= j < i ==> #[trigger] key_of(entries[j]) != Some(key)
}

/// The first index of `entries` whose key is `key`, if there is one.
pub open spec fn first_key(entries: Seq<EntryM>, key: Seq<char>) -> Option<int> {
    if exists|i: int| is_first_key(entries, key, i) {
        Some(choose|i: int| is_first_key(entries, key, i))
    } else {
        None
    }
}

/// What `Value::get` finds: the value of the first entry with key `key`,
/// if `v` is an object that has one.
pub open spec fn lookup(v: ValueM, key: Seq<char>) -> Option<NodeM> {
    match v {
        ValueM::Object { entries, .. } => match first_key(entries, key) {
            Some(i) => Some(entries[i].value),
            None => None,
        },
        _ => None,
    }
}

/// What `Value::get_index` finds: element `i` of `v`, if `v` is an array
/// and `i` is in bounds.
pub open spec fn element(v: ValueM, i: int) -> Option<NodeM> {
    match v {
        ValueM::Array { items, .. } => if 0 <= i < items.len() {
            Some(items[i])
        } else {
            None
        },
        _ => None,
    }
}

/// `n` with `extra` put in front of its prefix.
pub open spec fn with_prefix_before(extra: Seq<char>, n: NodeM) -> NodeM {
    NodeM { prefix: extra + n.prefix, value: n.value }
}

/// The object (`entries`, `trailing`) after taking out entry `i`: the
/// removed entry's key prefix and value prefix, in that order, move in
/// front of the next entry's key prefix, or in front of `trailing` if it
/// was the last entry.
pub open spec fn without_entry(entries: Seq<EntryM>, trailing: Seq<char>, i: int) -> ValueM {
    let moved = entries[i].key.prefix + entries[i].value.prefix;
    let rest = entries.remove(i);
    if i < rest.len() {
        ValueM::Object {
            entries: rest.update(i, EntryM { key: with_prefix_before(moved, rest[i].key), value: rest[i].value }),
            trailing,
        }
    } else {
        ValueM::Object { entries: rest, trailing: moved + trailing }
    }
}

/// The array (`items`, `trailing`) after taking out element `i`: its
/// prefix moves in front of the next element's prefix, or in front of
/// `trailing` if it was the last element.
pub open spec fn without_item(items: Seq<NodeM>, trailing: Seq<char>, i: int) -> ValueM {
    let moved = items[i].prefix;
    let rest = items.remove(i);
    if i < rest.len() {
        ValueM::Array { items: rest.update(i, with_prefix_before(moved, rest[i])), trailing }
    } else {
        ValueM::Array { items: rest, trailing: moved + trailing }
    }
}

/// A fresh `key: value` entry, with no comment before the key.
pub open spec fn new_entry(key: Seq<char>, value: NodeM) -> EntryM {
    EntryM { key: bare_node(ValueM::Str(key)), value }
}

/// `is_first_key` picks out a single index.
pub proof fn lemma_first_key_unique(entries: Seq<EntryM>, key: Seq<char>, i: int)
    requires
        is_first_key(entries, key, i),
    ensures
        first_key(entries, key) == Some(i),
{
    let j = choose|j: int| is_first_key(entries, key, j);
    assert(is_first_key(entries, key, j));
    if j < i {
        assert(key_of(entries[j]) != Some(key));
    } else if i < j {
        assert(key_of(entries[i]) != Some(key));
    }
}

/// Where some entry has key `key`, a first one does.
pub proof fn lemma_first_key_exists(entries: Seq<EntryM>, key: Seq<char>, w: int)
    requires
        0 <= w < entries.len(),
        key_of(entries[w]) == Some(key),
    ensures
        first_key(entries, key) is Some,
        first_key(entries, key) matches Some(i) && is_first_key(entries, key, i),
    decreases w,
{
    if forall|j: int| 0 <= j < w ==> #[trigger] key_of(entries[j]) != Some(key) {
        lemma_first_key_unique(entries, key, w);
    } else {
        let j = choose|j: int| 0 <= j < w && #[trigger] key_of(entries[j]) == Some(key);
        lemma_first_key_exists(entries, key, j);
    }
}

/// `first_key` is `None` exactly when no entry has the key.
pub proof fn lemma_first_key_none(entries: Seq<EntryM>, key: Seq<char>)
    ensures
        first_key(entries, key) is None <==> !has_key(entries, key),
        first_key(entries, key) matches Some(i) ==> is_first_key(entries, key, i),
{
    if has_key(entries, key) {
        let w = choose|w: int| 0 <= w < entries.len() && #[trigger] key_of(entries[w]) == Some(key);
        lemma_first_key_exists(entries, key, w);
    }
}

/// The prefixes of `items`, concatenated in order.
pub open spec fn prefixes(items: Seq<NodeM>) -> Seq<char>
    decreases items.len(),
{
    if items.len() == 0 {
        Seq::empty()
    } else {
        items[0].prefix + prefixes(items.drop_first())
    }
}

/// The key prefix and value prefix of each of `entries`, concatenated in
/// order.
pub open spec fn entries_trivia(entries: Seq<EntryM>) -> Seq<char>
    decreases entries.len(),
{
    if entries.len() == 0 {
        Seq::empty()
    } else {
        entries[0].key.prefix + entries[0].value.prefix + entries_trivia(entries.drop_first())
    }
}

/// The trivia directly inside a container, in source order: the prefixes
/// of its elements (for an object, each key's then each value's), then its
/// trailing trivia. Empty for a scalar.
pub open spec fn own_trivia(v: ValueM) -> Seq<char> {
    match v {
        ValueM::Array { items, trailing } => prefixes(items) + trailing,
        ValueM::Object { entries, trailing } => entries_trivia(entries) + trailing,
        _ => Seq::empty(),
    }
}

proof fn lemma_prefixes_concat(a: Seq<NodeM>, b: Seq<NodeM>)
    ensures
        prefixes(a + b) == prefixes(a) + prefixes(b),
    decreases a.len(),
{
    if a.len() == 0 {
        assert(a + b =~= b);
        assert(prefixes(a) + prefixes(b) =~= prefixes(b));
    } else {
        lemma_prefixes_concat(a.drop_first(), b);
        assert((a + b).drop_first() =~= a.drop_first() + b);
        assert(prefixes(a + b) =~= prefixes(a) + prefixes(b));
    }
}

proof fn lemma_entries_trivia_concat(a: Seq<EntryM>, b: Seq<EntryM>)
    ensures
        entries_trivia(a + b) == entries_trivia(a) + entries_trivia(b),
    decreases a.len(),
{
    if a.len() == 0 {
        assert(a + b =~= b);
        assert(entries_trivia(a) + entries_trivia(b) =~= entries_trivia(b));
    } else {
        lemma_entries_trivia_concat(a.drop_first(), b);
        assert((a + b).drop_first() =~= a.drop_first() + b);
        assert(entries_trivia(a + b) =~= entries_trivia(a) + entries_trivia(b));
    }
}

/// Removing an entry from an object loses no comment: the object's own
/// trivia, read in order, is the same before and after -- the removed
/// entry's key and value prefixes reappear exactly where the entry was.
pub proof fn law_remove_entry_keeps_trivia(entries: Seq<EntryM>, trailing: Seq<char>, i: int)
    requires
        0 <= i < entries.len(),
    ensures
        own_trivia(without_entry(entries, trailing, i)) == own_trivia(ValueM::Object { entries, trailing }),
{
    let e = entries[i];
    let before = entries.subrange(0, i);
    let after = entries.subrange(i + 1, entries.len() as int);
    assert(entries =~= before + (seq![e] + after));
    lemma_entries_trivia_concat(before, seq![e] + after);
    lemma_entries_trivia_concat(seq![e], after);
    assert(seq![e].drop_first() =~= Seq::<EntryM>::empty());
    let rest = entries.remove(i);
    assert(rest =~= before + after);
    let moved = e.key.prefix + e.value.prefix;
    assert(entries_trivia(seq![e].drop_first()) == Seq::<char>::empty());
    assert(entries_trivia(seq![e]) =~= moved);
    if i < rest.len() {
        let n = rest[i];
        let n2 = EntryM { key: with_prefix_before(moved, n.key), value: n.value };
        let tail = after.drop_first();
        assert(after =~= seq![n] + tail);
        assert(rest.update(i, n2) =~= before + (seq![n2] + tail));
        lemma_entries_trivia_concat(before, seq![n2] + tail);
        lemma_entries_trivia_concat(seq![n2], tail);
        lemma_entries_trivia_concat(seq![n], tail);
        assert(seq![n2].drop_first() =~= Seq::<EntryM>::empty());
        assert(seq![n].drop_first() =~= Seq::<EntryM>::empty());
        assert(entries_trivia(seq![n2]) =~= moved + entries_trivia(seq![n]));
        assert(own_trivia(without_entry(entries, trailing, i)) =~= own_trivia(ValueM::Object { entries, trailing }));
    } else {
        lemma_entries_trivia_concat(before, after);
        assert(after =~= Seq::<EntryM>::empty());
        assert(own_trivia(without_entry(entries, trailing, i)) =~= own_trivia(ValueM::Object { entries, trailing }));
    }
}

/// Removing an element from an array loses no comment: the array's own
/// trivia, read in order, is the same before and after.
pub proof fn law_remove_item_keeps_trivia(items: Seq<NodeM>, trailing: Seq<char>, i: int)
    requires
        0 <= i < items.len(),
    ensures
        own_trivia(without_item(items, trailing, i)) == own_trivia(ValueM::Array { items, trailing }),
{
    let e = items[i];
    let before = items.subrange(0, i);
    let after = items.subrange(i + 1, items.len() as int);
    assert(items =~= before + (seq![e] + after));
    lemma_prefixes_concat(before, seq![e] + after);
    lemma_prefixes_concat(seq![e], after);
    assert(seq![e].drop_first() =~= Seq::<NodeM>::empty());
    let rest = items.remove(i);
    assert(rest =~= before + after);
    assert(prefixes(seq![e].drop_first()) == Seq::<char>::empty());
    assert(prefixes(seq![e]) =~= e.prefix);
    if i < rest.len() {
        let n = rest[i];
        let n2 = with_prefix_before(e.prefix, n);
        let tail = after.drop_first();
        assert(after =~= seq![n] + tail);
        assert(rest.update(i, n2) =~= before + (seq![n2] + tail));
        lemma_prefixes_concat(before, seq![n2] + tail);
        lemma_prefixes_concat(seq![n2], tail);
        lemma_prefixes_concat(seq![n], tail);
        assert(seq![n2].drop_first() =~= Seq::<NodeM>::empty());
        assert(seq![n].drop_first() =~= Seq::<NodeM>::empty());
        assert(own_trivia(without_item(items, trailing, i)) =~= own_trivia(ValueM::Array { items, trailing }));
    } else {
        lemma_prefixes_concat(before, after);
        assert(after =~= Seq::<NodeM>::empty());
        assert(own_trivia(without_item(items, trailing, i)) =~= own_trivia(ValueM::Array { items, trailing }));
    }
}

/// After inserting `key`, looking it up finds the inserted value -- unless
/// the key was already there, in which case the lookup still finds the
/// earlier entry (insert never deduplicates, lookups take the first match).
pub proof fn law_insert_then_get(entries: Seq<EntryM>, trailing: Seq<char>, key: Seq<char>, value: NodeM)
    ensures
        lookup(ValueM::Object { entries: entries.push(new_entry(key, value)), trailing }, key) == if has_key(entries, key) {
            lookup(ValueM::Object { entries, trailing }, key)
        } else {
            Some(value)
        },
{
    let grown = entries.push(new_entry(key, value));
    lemma_first_key_none(entries, key);
    if has_key(entries, key) {
        let i = first_key(entries, key)->0;
        assert(is_first_key(grown, key, i)) by {
            assert forall|j: int| 0 <= j < i implies #[trigger] key_of(grown[j]) != Some(key) by {
                assert(grown[j] == entries[j]);
            }
            assert(grown[i] == entries[i]);
        }
        lemma_first_key_unique(grown, key, i);
    } else {
        let i = entries.len() as int;
        assert(is_first_key(grown, key, i)) by {
            assert forall|j: int| 0 <= j < i implies #[trigger] key_of(grown[j]) != Some(key) by {
                assert(grown[j] == entries[j]);
            }
        }
        lemma_first_key_unique(grown, key, i);
    }
}

/// Inserting a key the object does not have and removing it again gives
/// back the inserted value (without its prefix) and the entries it had before;
/// the inserted node's prefix is all that remains, moved in front of the
/// object's trailing trivia.
pub proof fn law_insert_then_remove(entries: Seq<EntryM>, trailing: Seq<char>, key: Seq<char>, value: NodeM)
    requires
        !has_key(entries, key),
    ensures
        ({
            let grown = entries.push(new_entry(key, value));
            &&& first_key(grown, key) == Some(entries.len() as int)
            &&& grown[entries.len() as int].value.value == value.value
            &&& without_entry(grown, trailing, entries.len() as int) == (ValueM::Object {
                entries,
                trailing: value.prefix + trailing,
            })
        }),
{
    let grown = entries.push(new_entry(key, value));
    let i = entries.len() as int;
    assert(is_first_key(grown, key, i)) by {
        assert forall|j: int| 0 <= j < i implies #[trigger] key_of(grown[j]) != Some(key) by {
            assert(grown[j] == entries[j]);
        }
    }
    lemma_first_key_unique(grown, key, i);
    assert(grown.remove(i) =~= entries);
    assert(Seq::<char>::empty() + value.prefix =~= value.prefix);
}

/// After pushing onto an array, the new last element is the pushed node
/// and every earlier element is unchanged.
pub proof fn law_push_then_get_index(items: Seq<NodeM>, trailing: Seq<char>, value: NodeM, i: int)
    ensures
        element(ValueM::Array { items: items.push(value), trailing }, items.len() as int) == Some(value),
        0 <= i < items.len() ==> element(ValueM::Array { items: items.push(value), trailing }, i) == element(
            ValueM::Array { items, trailing },
            i,
        ),
{
}

/// `first_key` on an entry put in front: index 0 if it has the key, else
/// one past the index in the rest.
pub proof fn lemma_first_key_cons(e: EntryM, rest: Seq<EntryM>, key: Seq<char>)
    ensures
        first_key(seq![e] + rest, key) == if key_of(e) == Some(key) {
            Some(0int)
        } else {
            match first_key(rest, key) {
                Some(i) => Some(i + 1),
                None => None,
            }
        },
{
    let s = seq![e] + rest;
    assert(s[0] == e);
    if key_of(e) == Some(key) {
        lemma_first_key_unique(s, key, 0);
    } else {
        lemma_first_key_none(rest, key);
        match first_key(rest, key) {
            Some(i) => {
                assert(is_first_key(s, key, i + 1)) by {
                    assert(s[i + 1] == rest[i]);
                    assert forall|j: int| 0 <= j < i + 1 implies #[trigger] key_of(s[j]) != Some(key) by {
                        if j > 0 {
                            assert(s[j] == rest[j - 1]);
                        }
                    }
                }
                lemma_first_key_unique(s, key, i + 1);
            },
            None => {
                lemma_first_key_none(s, key);
                if has_key(s, key) {
                    let w = choose|w: int| 0 <= w < s.len() && #[trigger] key_of(s[w]) == Some(key);
                    assert(w > 0);
                    assert(s[w] == rest[w - 1]);
                    assert(has_key(rest, key));
                }
            },
        }
    }
}

/// `first_key` after appending an entry: unchanged where the key was
/// already there or the new entry has another key; the new last index
/// where it is the first with that key.
pub proof fn lemma_first_key_push(s: Seq<EntryM>, e: EntryM, key: Seq<char>)
    ensures
        has_key(s, key) || key_of(e) != Some(key) ==> first_key(s.push(e), key) == first_key(s, key),
        !has_key(s, key) && key_of(e) == Some(key) ==> first_key(s.push(e), key) == Some(s.len() as int),
{
    let t = s.push(e);
    lemma_first_key_none(s, key);
    match first_key(s, key) {
        Some(i) => {
            assert(is_first_key(t, key, i)) by {
                assert(t[i] == s[i]);
                assert forall|j: int| 0 <= j < i implies #[trigger] key_of(t[j]) != Some(key) by {
                    assert(t[j] == s[j]);
                }
            }
            lemma_first_key_unique(t, key, i);
        },
        None => {
            if key_of(e) == Some(key) {
                assert(is_first_key(t, key, s.len() as int)) by {
                    assert forall|j: int| 0 <= j < s.len() implies #[trigger] key_of(t[j]) != Some(key) by {
                        assert(t[j] == s[j]);
                    }
                }
                lemma_first_key_unique(t, key, s.len() as int);
            } else {
                lemma_first_key_none(t, key);
                if has_key(t, key) {
                    let w = choose|w: int| 0 <= w < t.len() && #[trigger] key_of(t[w]) == Some(key);
                    assert(w < s.len());
                    assert(t[w] == s[w]);
                }
            }
        },
    }
}

/// With no key twice, the entry holding a key is its first.
pub proof fn lemma_unique_first_key(s: Seq<EntryM>, key: Seq<char>, i: int)
    requires
        0 <= i < s.len(),
        key_of(s[i]) == Some(key),
        forall|a: int, b: int| 0 <= a < b < s.len() ==> key_of(s[a]) != key_of(s[b]),
    ensures
        first_key(s, key) == Some(i),
{
    assert(is_first_key(s, key, i)) by {
        assert forall|j: int| 0 <= j < i implies #[trigger] key_of(s[j]) != Some(key) by {
            assert(key_of(s[j]) != key_of(s[i]));
        }
    }
    lemma_first_key_unique(s, key, i);
}

/// Every trivia slot of `n` (its prefix, and at any depth the prefixes of
/// its keys and values and the trailing trivia of its containers) holds
/// only whitespace and `#` comments.
pub open spec fn trivia_valid(n: NodeM) -> bool
    decreases n,
{
    &&& is_valid_prefix_spec(n.prefix)
    &&& match n.value {
        ValueM::Array { items, trailing } => is_valid_prefix_spec(trailing) && forall|i: int|
            0 <= i < items.len() ==> trivia_valid(#[trigger] items[i]),
        ValueM::Object { entries, trailing } => is_valid_prefix_spec(trailing) && forall|i: int|
            0 <= i < entries.len() ==> trivia_valid(#[trigger] entries[i].key) && trivia_valid(entries[i].value),
        _ => true,
    }
}

/// `n` with `extra` in front of its prefix keeps valid trivia, if `extra`
/// is valid prefix content.
proof fn lemma_with_prefix_before_valid(extra: Seq<char>, n: NodeM)
    requires
        is_valid_prefix_spec(extra),
        trivia_valid(n),
    ensures
        trivia_valid(with_prefix_before(extra, n)),
{
    lemma_valid_prefix_concat(extra, n.prefix);
}

/// Editing keeps every trivia slot valid: removing an entry or an element
/// (whose comments move next door), and inserting or pushing a node whose
/// own trivia is valid, leave only whitespace and comments in every trivia
/// slot of the container.
pub proof fn law_editing_keeps_trivia_valid(v: ValueM, key: Seq<char>, n: NodeM, i: int)
    requires
        trivia_valid(bare_node(v)),
        trivia_valid(n),
    ensures
        v matches ValueM::Object { entries, trailing } ==> (0 <= i < entries.len() ==> trivia_valid(
            bare_node(without_entry(entries, trailing, i)),
        ) && trivia_valid(bare_node(entries[i].value.value))),
        v matches ValueM::Array { items, trailing } ==> (0 <= i < items.len() ==> trivia_valid(
            bare_node(without_item(items, trailing, i)),
        ) && trivia_valid(bare_node(items[i].value))),
        v matches ValueM::Object { entries, trailing } ==> trivia_valid(
            bare_node(ValueM::Object { entries: entries.push(new_entry(key, n)), trailing }),
        ),
        v matches ValueM::Array { items, trailing } ==> trivia_valid(
            bare_node(ValueM::Array { items: items.push(n), trailing }),
        ),
{
    assert(valid_prefix_from(Seq::<char>::empty(), 0));
    match v {
        ValueM::Object { entries, trailing } => {
            let ne = new_entry(key, n);
            assert(trivia_valid(ne.key));
            let grown = entries.push(ne);
            assert forall|q: int| 0 <= q < grown.len() implies trivia_valid(#[trigger] grown[q].key) && trivia_valid(
                grown[q].value,
            ) by {
                if q < entries.len() {
                    assert(grown[q] == entries[q]);
                }
            }
            if 0 <= i < entries.len() {
                let e = entries[i];
                assert(trivia_valid(e.key) && trivia_valid(e.value));
                lemma_valid_prefix_concat(e.key.prefix, e.value.prefix);
                let moved = e.key.prefix + e.value.prefix;
                let rest = entries.remove(i);
                assert forall|q: int| 0 <= q < rest.len() implies trivia_valid(#[trigger] rest[q].key) && trivia_valid(
                    rest[q].value,
                ) by {
                    if q < i {
                        assert(rest[q] == entries[q]);
                    } else {
                        assert(rest[q] == entries[q + 1]);
                    }
                }
                if i < rest.len() {
                    let r2 = rest.update(i, EntryM { key: with_prefix_before(moved, rest[i].key), value: rest[i].value });
                    lemma_with_prefix_before_valid(moved, rest[i].key);
                    assert forall|q: int| 0 <= q < r2.len() implies trivia_valid(#[trigger] r2[q].key) && trivia_valid(
                        r2[q].value,
                    ) by {
                        if q != i {
                            assert(r2[q] == rest[q]);
                        }
                    }
                } else {
                    lemma_valid_prefix_concat(moved, trailing);
                }
                assert(trivia_valid(e.value));
            }
        },
        ValueM::Array { items, trailing } => {
            let grown = items.push(n);
            assert forall|q: int| 0 <= q < grown.len() implies trivia_valid(#[trigger] grown[q]) by {
                if q < items.len() {
                    assert(grown[q] == items[q]);
                }
            }
            if 0 <= i < items.len() {
                let e = items[i];
                assert(trivia_valid(e));
                let rest = items.remove(i);
                assert forall|q: int| 0 <= q < rest.len() implies trivia_valid(#[trigger] rest[q]) by {
                    if q < i {
                        assert(rest[q] == items[q]);
                    } else {
                        assert(rest[q] == items[q + 1]);
                    }
                }
                if i < rest.len() {
                    let r2 = rest.update(i, with_prefix_before(e.prefix, rest[i]));
                    lemma_with_prefix_before_valid(e.prefix, rest[i]);
                    assert forall|q: int| 0 <= q < r2.len() implies trivia_valid(#[trigger] r2[q]) by {
                        if q != i {
                            assert(r2[q] == rest[q]);
                        }
                    }
                } else {
                    lemma_valid_prefix_concat(e.prefix, trailing);
                }
            }
        },
        _ => {},
    }
}

/// A located error: the character position it points at, and its
/// message.
pub struct ErrM {
    pub pos: int,
    pub msg: Seq<char>,
}

/// 1-indexed (line, column) of the character at position `n` of `s`:
/// every `'\n'` before it starts a new line, every other character
/// advances the column.
pub open spec fn line_col(s: Seq<char>, n: int) -> (int, int)
    decreases n,
{
    if n <= 0 || s.len() == 0 {
        (1, 1)
    } else if n > s.len() {
        line_col(s, s.len() as int)
    } else {
        let (l, c) = line_col(s, n - 1);
        if s[n - 1] == '\n' {
            (l + 1, 1)
        } else {
            (l, c + 1)
        }
    }
}

/// `e` reports `em` in input `s`.
pub open spec fn err_matches(e: crate::ParseError, s: Seq<char>, em: ErrM) -> bool {
    &&& e.message@ == em.msg
    &&& (e.line as int, e.column as int) == line_col(s, em.pos)
}

} // verus!
