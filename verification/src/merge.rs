//! Folding a freshly built, comment-free tree into an existing,
//! comment-carrying one, so that a typed edit only rewrites the values
//! that actually changed.
//!
//! The two trees are walked together and the old one is edited in place:
//! a node whose value did not change is never touched at all, keeping not
//! just its comment (which lives in the `Node` around it) but also its
//! exact raw number literal. An object key or array element present in the
//! old tree but not in the new one is dropped with the same comment
//! migration as [`Value::remove`]/[`Value::remove_index`]: its comments
//! move onto whatever takes its place instead of vanishing.

use vstd::prelude::*;
use crate::model::{
    first_key, has_key, key_of, without_entry, without_item, lemma_first_key_cons, lemma_first_key_none, lemma_first_key_push,
    lemma_unique_first_key, new_entry, prefixes, with_prefix_before,
};
use crate::number::law_numeric_eq_equivalence;
use crate::number::num_eq_spec;
use crate::text::str_eq;
use crate::{concat_prefix, entries_model, find_key, nodes_model, CsonStr, Entry, EntryM, Node, NodeM, Value, ValueM};

verus! {

/// `old` after merging `new` into it.
///
/// * A scalar that is unchanged (numbers compared numerically) stays
///   exactly as it was; a changed one is replaced by the new value.
/// * Arrays are merged position by position ([`merge_items`]), objects key
///   by key ([`merge_entries`]).
/// * A change of shape replaces the value wholesale, with no trailing
///   trivia.
pub open spec fn merge_spec(old: ValueM, new: ValueM) -> ValueM
    decreases new, 0int,
{
    match new {
        ValueM::Number(b) => match old {
            ValueM::Number(a) => if num_eq_spec(a, b) { old } else { new },
            _ => new,
        },
        ValueM::Array { items, .. } => match old {
            ValueM::Array { items: old_items, trailing } => merge_items(old_items, trailing, items),
            _ => ValueM::Array { items, trailing: Seq::empty() },
        },
        ValueM::Object { entries, .. } => match old {
            ValueM::Object { entries: old_entries, trailing } => merge_entries(old_entries, trailing, entries),
            _ => ValueM::Object { entries, trailing: Seq::empty() },
        },
        _ => new,
    }
}

/// The array (`old`, `trailing`) after merging the elements `new` into it:
/// the common positions are merged, keeping each old element's prefix;
/// extra new elements are appended; extra old elements are dropped, their
/// prefixes moving, in order, in front of `trailing`.
pub open spec fn merge_items(old: Seq<NodeM>, trailing: Seq<char>, new: Seq<NodeM>) -> ValueM
    decreases new, 0int,
{
    let common = if old.len() < new.len() { old.len() as int } else { new.len() as int };
    let merged = Seq::new(
        common as nat,
        |i: int|
            if 0 <= i < common {
                NodeM { prefix: old[i].prefix, value: merge_spec(old[i].value, new[i].value) }
            } else {
                old[i]
            },
    );
    if new.len() > old.len() {
        ValueM::Array { items: merged + new.subrange(old.len() as int, new.len() as int), trailing }
    } else {
        ValueM::Array { items: merged, trailing: prefixes(old.subrange(common, old.len() as int)) + trailing }
    }
}

/// One step of merging object entries: the new entry `ne` is merged into
/// the first entry of `acc` with the same key, or appended (with a fresh
/// key node) if there is none. An entry whose key is not a string is
/// skipped.
pub open spec fn merge_entry_step(acc: Seq<EntryM>, ne: EntryM) -> Seq<EntryM>
    decreases ne, 1int,
{
    match key_of(ne) {
        Some(k) => match first_key(acc, k) {
            Some(i) => acc.update(
                i,
                EntryM {
                    key: acc[i].key,
                    value: NodeM { prefix: acc[i].value.prefix, value: merge_spec(acc[i].value.value, ne.value.value) },
                },
            ),
            None => acc.push(new_entry(k, ne.value)),
        },
        None => acc,
    }
}

/// `old` after every entry of `new`, in order, went through
/// [`merge_entry_step`].
pub open spec fn merge_entry_steps(old: Seq<EntryM>, new: Seq<EntryM>) -> Seq<EntryM>
    decreases new, 0int,
{
    if new.len() == 0 {
        old
    } else {
        merge_entry_step(merge_entry_steps(old, new.drop_last()), new.last())
    }
}

/// An entry whose key is a string that no entry of `new` has.
pub open spec fn is_stale(e: EntryM, new: Seq<EntryM>) -> bool {
    key_of(e) matches Some(k) && !has_key(new, k)
}

/// `entries` without their stale entries. Each dropped entry's key prefix
/// and value prefix, in that order, are carried forward -- `carry` holds
/// what is carried so far -- in front of the next kept entry's key prefix,
/// or of `trailing` after the last entry.
pub open spec fn drop_stale(entries: Seq<EntryM>, new: Seq<EntryM>, carry: Seq<char>, trailing: Seq<char>) -> (
    Seq<EntryM>,
    Seq<char>,
)
    decreases entries.len(),
{
    if entries.len() == 0 {
        (Seq::empty(), carry + trailing)
    } else {
        let e = entries[0];
        if is_stale(e, new) {
            drop_stale(entries.drop_first(), new, carry + e.key.prefix + e.value.prefix, trailing)
        } else {
            let (rest, t) = drop_stale(entries.drop_first(), new, Seq::empty(), trailing);
            (seq![EntryM { key: with_prefix_before(carry, e.key), value: e.value }] + rest, t)
        }
    }
}

/// The object (`old`, `trailing`) after merging the entries `new` into it:
/// keys in both are merged in place, in the old order; keys only in `new`
/// are appended; keys only in `old` are dropped with their comments
/// carried forward.
pub open spec fn merge_entries(old: Seq<EntryM>, trailing: Seq<char>, new: Seq<EntryM>) -> ValueM
    decreases new, 1int,
{
    let (entries, t) = drop_stale(merge_entry_steps(old, new), new, Seq::empty(), trailing);
    ValueM::Object { entries, trailing: t }
}

// ---------------------------------------------------------------------
// Merging what is already there changes nothing.

/// `new` holds the same data as `old`, whatever the trivia on either side:
/// equal scalars (numbers compared numerically), arrays of the same length
/// with the same data position by position, and objects with the same
/// string keys, matched by name in any order, where each entry of `new`
/// holds the same data as the first entry of `old` with its key (a key
/// `old` holds twice may repeat, with data equal to that first entry's).
pub open spec fn same_data(old: ValueM, new: ValueM) -> bool
    decreases new,
{
    match new {
        ValueM::Number(b) => old matches ValueM::Number(a) && num_eq_spec(a, b),
        ValueM::Array { items, .. } => match old {
            ValueM::Array { items: o, .. } => o.len() == items.len() && forall|i: int|
                0 <= i < items.len() ==> same_data(o[i].value, #[trigger] items[i].value),
            _ => false,
        },
        ValueM::Object { entries, .. } => match old {
            ValueM::Object { entries: o, .. } => {
                &&& forall|i: int| 0 <= i < o.len() ==> key_in(#[trigger] o[i], entries)
                &&& forall|j: int|
                    0 <= j < entries.len() ==> (#[trigger] match_index(o, entries[j])) is Some && same_data(
                        o[match_index(o, entries[j])->0].value.value,
                        entries[j].value.value,
                    )
            },
            _ => false,
        },
        _ => old == new,
    }
}

/// `e` has a string key that some entry of `entries` has too.
pub open spec fn key_in(e: EntryM, entries: Seq<EntryM>) -> bool {
    match key_of(e) {
        Some(k) => has_key(entries, k),
        None => false,
    }
}

/// The index of the first entry of `o` with the (string) key of `ne`.
pub open spec fn match_index(o: Seq<EntryM>, ne: EntryM) -> Option<int> {
    match key_of(ne) {
        Some(k) => first_key(o, k),
        None => None,
    }
}

/// Where every new entry merges into an existing one without changing it,
/// the merge steps leave the entries as they were.
proof fn lemma_steps_identity(o: Seq<EntryM>, new: Seq<EntryM>, k: int)
    requires
        0 <= k <= new.len(),
        forall|j: int|
            0 <= j < new.len() ==> (#[trigger] match_index(o, new[j])) is Some && merge_spec(
                o[match_index(o, new[j])->0].value.value,
                new[j].value.value,
            ) == o[match_index(o, new[j])->0].value.value,
    ensures
        merge_entry_steps(o, new.subrange(0, k)) == o,
    decreases k,
{
    if k > 0 {
        let pre = new.subrange(0, k);
        assert(pre.drop_last() =~= new.subrange(0, k - 1));
        assert(pre.last() == new[k - 1]);
        lemma_steps_identity(o, new, k - 1);
        let ne = new[k - 1];
        assert(match_index(o, ne) is Some);
        let key = key_of(ne)->0;
        let i = first_key(o, key)->0;
        lemma_first_key_none(o, key);
        assert(0 <= i < o.len());
        assert(merge_spec(o[i].value.value, ne.value.value) == o[i].value.value);
        assert(o.update(i, EntryM {
            key: o[i].key,
            value: NodeM { prefix: o[i].value.prefix, value: o[i].value.value },
        }) =~= o);
        assert(merge_entry_step(o, ne) == o);
        assert(merge_entry_steps(o, pre) == merge_entry_step(merge_entry_steps(o, pre.drop_last()), pre.last()));
    } else {
        assert(new.subrange(0, 0) =~= Seq::<EntryM>::empty());
        assert(merge_entry_steps(o, new.subrange(0, 0)) == o);
    }
}

/// With nothing stale and nothing carried, dropping stale entries keeps
/// everything as it was.
proof fn lemma_nothing_stale(es: Seq<EntryM>, new: Seq<EntryM>, trailing: Seq<char>)
    requires
        forall|i: int| 0 <= i < es.len() ==> !is_stale(#[trigger] es[i], new),
    ensures
        drop_stale(es, new, Seq::empty(), trailing) == (es, trailing),
    decreases es.len(),
{
    if es.len() == 0 {
        assert(Seq::<char>::empty() + trailing =~= trailing);
    } else {
        let rest = es.drop_first();
        assert forall|i: int| 0 <= i < rest.len() implies !is_stale(#[trigger] rest[i], new) by {
            assert(rest[i] == es[i + 1]);
        }
        lemma_nothing_stale(rest, new, trailing);
        assert(!is_stale(es[0], new));
        let e = es[0];
        assert(with_prefix_before(Seq::empty(), e.key) == e.key) by {
            assert(Seq::<char>::empty() + e.key.prefix =~= e.key.prefix);
        }
        assert(seq![EntryM { key: with_prefix_before(Seq::empty(), e.key), value: e.value }] + rest =~= es);
    }
}

/// Merging a value that holds the same data as the document changes
/// nothing at all: every node, comment and number literal stays as it was.
pub proof fn law_merge_same_data_is_identity(old: ValueM, new: ValueM)
    requires
        same_data(old, new),
    ensures
        merge_spec(old, new) == old,
    decreases new,
{
    match new {
        ValueM::Array { items, .. } => {
            let o = old->Array_items;
            let t = old->Array_trailing;
            assert forall|i: int| 0 <= i < items.len() implies merge_spec(o[i].value, #[trigger] items[i].value)
                == o[i].value by {
                law_merge_same_data_is_identity(o[i].value, items[i].value);
            }
            let r = merge_items(o, t, items);
            assert(o.subrange(o.len() as int, o.len() as int) =~= Seq::<NodeM>::empty());
            assert(prefixes(Seq::<NodeM>::empty()) + t =~= t);
            assert(r->Array_items =~= o);
        },
        ValueM::Object { entries, .. } => {
            let o = old->Object_entries;
            let t = old->Object_trailing;
            assert forall|j: int| 0 <= j < entries.len() implies (#[trigger] match_index(o, entries[j])) is Some
                && merge_spec(o[match_index(o, entries[j])->0].value.value, entries[j].value.value)
                == o[match_index(o, entries[j])->0].value.value by {
                let i = match_index(o, entries[j])->0;
                law_merge_same_data_is_identity(o[i].value.value, entries[j].value.value);
            }
            lemma_steps_identity(o, entries, entries.len() as int);
            assert(entries.subrange(0, entries.len() as int) =~= entries);
            lemma_nothing_stale(o, entries, t);
        },
        _ => {},
    }
}

// ---------------------------------------------------------------------
// After a merge the document holds the new data.

/// Every object in `v`, at any depth, has only string keys, none twice.
pub open spec fn keys_unique(v: ValueM) -> bool
    decreases v,
{
    match v {
        ValueM::Array { items, .. } => forall|i: int| 0 <= i < items.len() ==> keys_unique(#[trigger] items[i].value),
        ValueM::Object { entries, .. } => {
            &&& forall|i: int| 0 <= i < entries.len() ==> (#[trigger] key_of(entries[i])) is Some
            &&& forall|i: int, j: int| 0 <= i < j < entries.len() ==> key_of(entries[i]) != key_of(entries[j])
            &&& forall|i: int| 0 <= i < entries.len() ==> keys_unique(#[trigger] entries[i].value.value)
        },
        _ => true,
    }
}

/// A value with unique keys holds the same data as itself.
proof fn lemma_same_data_refl(x: ValueM)
    requires
        keys_unique(x),
    ensures
        same_data(x, x),
    decreases x,
{
    match x {
        ValueM::Number(a) => {
            law_numeric_eq_equivalence(a, a, a);
        },
        ValueM::Array { items, .. } => {
            assert forall|i: int| 0 <= i < items.len() implies same_data(items[i].value, #[trigger] items[i].value) by {
                lemma_same_data_refl(items[i].value);
            }
        },
        ValueM::Object { entries, .. } => {
            assert forall|i: int| 0 <= i < entries.len() implies key_in(#[trigger] entries[i], entries) by {
                assert(key_of(entries[i]) is Some);
            }
            assert forall|j: int| 0 <= j < entries.len() implies (#[trigger] match_index(entries, entries[j])) is Some
                && same_data(entries[match_index(entries, entries[j])->0].value.value, entries[j].value.value) by {
                assert(key_of(entries[j]) is Some);
                lemma_unique_first_key(entries, key_of(entries[j])->0, j);
                lemma_same_data_refl(entries[j].value.value);
            }
        },
        _ => {},
    }
}

/// Dropping stale entries keeps exactly the entries whose keys `new` has,
/// unchanged but for their key's prefix.
proof fn lemma_drop_stale_keeps(es: Seq<EntryM>, new: Seq<EntryM>, carry: Seq<char>, trailing: Seq<char>)
    requires
        forall|i: int| 0 <= i < es.len() ==> (#[trigger] key_of(es[i])) is Some,
        forall|i: int, j: int| 0 <= i < j < es.len() ==> key_of(es[i]) != key_of(es[j]),
    ensures
        ({
            let out = drop_stale(es, new, carry, trailing).0;
            &&& forall|i: int| 0 <= i < out.len() ==> key_in(#[trigger] out[i], new)
            &&& forall|i: int, j: int| 0 <= i < j < out.len() ==> key_of(out[i]) != key_of(out[j])
            &&& forall|k: Seq<char>| #[trigger] has_key(out, k) ==> has_key(es, k)
            &&& forall|i: int| 0 <= i < out.len() ==> exists|j: int| 0 <= j < es.len() && (#[trigger] out[i]).value == es[j].value
            &&& forall|k: Seq<char>| has_key(new, k) && #[trigger] first_key(es, k) is Some ==> (first_key(out, k) matches Some(i2)
                && out[i2].value == es[first_key(es, k)->0].value)
        }),
    decreases es.len(),
{
    if es.len() == 0 {
        let out = drop_stale(es, new, carry, trailing).0;
        assert(out.len() == 0);
        assert forall|k: Seq<char>| has_key(new, k) && #[trigger] first_key(es, k) is Some implies false by {
            lemma_first_key_none(es, k);
        }
    } else {
        let e = es[0];
        let rest = es.drop_first();
        assert(es =~= seq![e] + rest);
        assert forall|i: int| 0 <= i < rest.len() implies (#[trigger] key_of(rest[i])) is Some by {
            assert(rest[i] == es[i + 1]);
        }
        assert forall|i: int, j: int| 0 <= i < j < rest.len() implies key_of(rest[i]) != key_of(rest[j]) by {
            assert(rest[i] == es[i + 1]);
            assert(rest[j] == es[j + 1]);
        }
        let stale = is_stale(e, new);
        let carry2 = if stale { carry + e.key.prefix + e.value.prefix } else { Seq::empty() };
        lemma_drop_stale_keeps(rest, new, carry2, trailing);
        let out_r = drop_stale(rest, new, carry2, trailing).0;
        let out = drop_stale(es, new, carry, trailing).0;
        assert(key_of(es[0]) is Some);
        let ke = key_of(e)->0;
        // the first entry's key is nowhere in the rest
        assert(!has_key(rest, ke)) by {
            if has_key(rest, ke) {
                let w = choose|w: int| 0 <= w < rest.len() && #[trigger] key_of(rest[w]) == Some(ke);
                assert(rest[w] == es[w + 1]);
                assert(key_of(es[0]) != key_of(es[w + 1]));
            }
        }
        assert forall|k: Seq<char>| has_key(rest, k) implies has_key(es, k) by {
            let w = choose|w: int| 0 <= w < rest.len() && #[trigger] key_of(rest[w]) == Some(k);
            assert(rest[w] == es[w + 1]);
        }
        assert forall|k: Seq<char>| #[trigger] first_key(es, k) is Some && k != ke implies first_key(rest, k) is Some
            && first_key(es, k)->0 == first_key(rest, k)->0 + 1 by {
            lemma_first_key_cons(e, rest, k);
        }
        if stale {
            assert(out == out_r);
            assert forall|i: int| 0 <= i < out.len() implies exists|j: int| 0 <= j < es.len() && (#[trigger] out[i]).value
                == es[j].value by {
                let j = choose|j: int| 0 <= j < rest.len() && out_r[i].value == rest[j].value;
                assert(rest[j] == es[j + 1]);
            }
            assert forall|k: Seq<char>| has_key(new, k) && #[trigger] first_key(es, k) is Some implies (first_key(
                out,
                k,
            ) matches Some(i2) && out[i2].value == es[first_key(es, k)->0].value) by {
                assert(k != ke);
                assert(first_key(rest, k) is Some);
                assert(rest[first_key(rest, k)->0] == es[first_key(es, k)->0]);
            }
        } else {
            let e2 = EntryM { key: with_prefix_before(carry, e.key), value: e.value };
            assert(out == seq![e2] + out_r);
            assert(key_of(e2) == key_of(e));
            assert(key_in(e, new));
            assert(!has_key(out_r, ke));
            assert forall|i: int| 0 <= i < out.len() implies key_in(#[trigger] out[i], new) by {
                if i > 0 {
                    assert(out[i] == out_r[i - 1]);
                }
            }
            assert forall|i: int, j: int| 0 <= i < j < out.len() implies key_of(out[i]) != key_of(out[j]) by {
                assert(out[j] == out_r[j - 1]);
                if i > 0 {
                    assert(out[i] == out_r[i - 1]);
                } else {
                    assert(key_in(out_r[j - 1], new));
                    if key_of(out[j]) == Some(ke) {
                        assert(has_key(out_r, ke));
                    }
                }
            }
            assert forall|k: Seq<char>| #[trigger] has_key(out, k) implies has_key(es, k) by {
                let w = choose|w: int| 0 <= w < out.len() && #[trigger] key_of(out[w]) == Some(k);
                if w > 0 {
                    assert(out[w] == out_r[w - 1]);
                    assert(has_key(out_r, k));
                } else {
                    assert(key_of(es[0]) == Some(k));
                }
            }
            assert forall|i: int| 0 <= i < out.len() implies exists|j: int| 0 <= j < es.len() && (#[trigger] out[i]).value
                == es[j].value by {
                if i > 0 {
                    assert(out[i] == out_r[i - 1]);
                    let j = choose|j: int| 0 <= j < rest.len() && out_r[i - 1].value == rest[j].value;
                    assert(rest[j] == es[j + 1]);
                } else {
                    assert(out[0].value == es[0].value);
                }
            }
            assert forall|k: Seq<char>| has_key(new, k) && #[trigger] first_key(es, k) is Some implies (first_key(
                out,
                k,
            ) matches Some(i2) && out[i2].value == es[first_key(es, k)->0].value) by {
                lemma_first_key_cons(e2, out_r, k);
                if k == ke {
                    lemma_first_key_cons(e, rest, k);
                } else {
                    assert(first_key(rest, k) is Some);
                    assert(rest[first_key(rest, k)->0] == es[first_key(es, k)->0]);
                    assert(out[first_key(out_r, k)->0 + 1] == out_r[first_key(out_r, k)->0]);
                }
            }
        }
    }
}

/// `first_key` reads only the keys.
proof fn lemma_first_key_same_keys(a: Seq<EntryM>, b: Seq<EntryM>, key: Seq<char>)
    requires
        a.len() == b.len(),
        forall|i: int| 0 <= i < a.len() ==> key_of(#[trigger] a[i]) == key_of(b[i]),
    ensures
        first_key(a, key) == first_key(b, key),
{
    lemma_first_key_none(a, key);
    lemma_first_key_none(b, key);
    if first_key(a, key) is Some {
        let i = first_key(a, key)->0;
        assert(is_first_key_of(b, key, i)) by {
            assert(key_of(a[i]) == key_of(b[i]));
            assert forall|j: int| 0 <= j < i implies #[trigger] key_of(b[j]) != Some(key) by {
                assert(key_of(a[j]) == key_of(b[j]));
            }
        }
        crate::model::lemma_first_key_unique(b, key, i);
    } else if first_key(b, key) is Some {
        let i = first_key(b, key)->0;
        assert(key_of(a[i]) == key_of(b[i]));
        assert(has_key(a, key));
    }
}

spec fn is_first_key_of(s: Seq<EntryM>, key: Seq<char>, i: int) -> bool {
    crate::model::is_first_key(s, key, i)
}

/// Folding the new entries in one by one: every new key ends up with an
/// entry holding its data, keys stay unique strings, and every value keeps
/// unique keys.
proof fn lemma_steps_merge(o: Seq<EntryM>, n: Seq<EntryM>, j: int)
    requires
        0 <= j <= n.len(),
        forall|i: int| 0 <= i < o.len() ==> (#[trigger] key_of(o[i])) is Some,
        forall|a: int, b: int| 0 <= a < b < o.len() ==> key_of(o[a]) != key_of(o[b]),
        forall|i: int| 0 <= i < o.len() ==> keys_unique(#[trigger] o[i].value.value),
        forall|i: int| 0 <= i < n.len() ==> (#[trigger] key_of(n[i])) is Some,
        forall|a: int, b: int| 0 <= a < b < n.len() ==> key_of(n[a]) != key_of(n[b]),
        forall|i: int| 0 <= i < n.len() ==> keys_unique(#[trigger] n[i].value.value),
        forall|x: ValueM, l: int|
            #![trigger merge_spec(x, n[l].value.value)]
            0 <= l < n.len() && keys_unique(x) ==> same_data(merge_spec(x, n[l].value.value), n[l].value.value)
                && keys_unique(merge_spec(x, n[l].value.value)),
    ensures
        ({
            let acc = merge_entry_steps(o, n.subrange(0, j));
            &&& forall|i: int| 0 <= i < acc.len() ==> (#[trigger] key_of(acc[i])) is Some
            &&& forall|a: int, b: int| 0 <= a < b < acc.len() ==> key_of(acc[a]) != key_of(acc[b])
            &&& forall|i: int| 0 <= i < acc.len() ==> keys_unique(#[trigger] acc[i].value.value)
            &&& forall|l: int|
                0 <= l < j ==> (#[trigger] match_index(acc, n[l])) is Some && same_data(
                    acc[match_index(acc, n[l])->0].value.value,
                    n[l].value.value,
                )
        }),
    decreases j,
{
    if j == 0 {
        assert(n.subrange(0, 0) =~= Seq::<EntryM>::empty());
    } else {
        lemma_steps_merge(o, n, j - 1);
        let pre = n.subrange(0, j);
        assert(pre.drop_last() =~= n.subrange(0, j - 1));
        assert(pre.last() == n[j - 1]);
        let acc = merge_entry_steps(o, n.subrange(0, j - 1));
        let ne = n[j - 1];
        assert(key_of(n[j - 1]) is Some);
        let k = key_of(ne)->0;
        let acc2 = merge_entry_step(acc, ne);
        assert(merge_entry_steps(o, pre) == acc2);
        lemma_first_key_none(acc, k);
        // earlier new keys differ from this one
        assert forall|l: int| 0 <= l < j - 1 implies key_of(#[trigger] n[l]) != Some(k) by {
            assert(key_of(n[l]) != key_of(n[j - 1]));
        }
        match first_key(acc, k) {
            Some(i) => {
                let merged = merge_spec(acc[i].value.value, ne.value.value);
                assert(keys_unique(acc[i].value.value));
                assert(same_data(merged, ne.value.value) && keys_unique(merged));
                assert(acc2 == acc.update(
                    i,
                    EntryM { key: acc[i].key, value: NodeM { prefix: acc[i].value.prefix, value: merged } },
                ));
                assert forall|q: int| 0 <= q < acc.len() implies key_of(#[trigger] acc2[q]) == key_of(acc[q]) by {}
                assert forall|l: int| 0 <= l < j implies (#[trigger] match_index(acc2, n[l])) is Some && same_data(
                    acc2[match_index(acc2, n[l])->0].value.value,
                    n[l].value.value,
                ) by {
                    assert(key_of(n[l]) is Some);
                    lemma_first_key_same_keys(acc2, acc, key_of(n[l])->0);
                    if l < j - 1 {
                        assert(match_index(acc, n[l]) is Some);
                        let il = match_index(acc, n[l])->0;
                        lemma_first_key_none(acc, key_of(n[l])->0);
                        assert(il != i);
                    }
                }
                assert forall|q: int| 0 <= q < acc2.len() implies keys_unique(#[trigger] acc2[q].value.value) by {
                    if q != i {
                        assert(acc2[q] == acc[q]);
                    }
                }
            },
            None => {
                let e = new_entry(k, ne.value);
                assert(acc2 == acc.push(e));
                assert forall|l: int| 0 <= l < j implies (#[trigger] match_index(acc2, n[l])) is Some && same_data(
                    acc2[match_index(acc2, n[l])->0].value.value,
                    n[l].value.value,
                ) by {
                    assert(key_of(n[l]) is Some);
                    let kl = key_of(n[l])->0;
                    lemma_first_key_push(acc, e, kl);
                    if l < j - 1 {
                        assert(match_index(acc, n[l]) is Some);
                        lemma_first_key_none(acc, kl);
                        let il = first_key(acc, kl)->0;
                        assert(acc2[il] == acc[il]);
                    } else {
                        assert(acc2[acc.len() as int] == e);
                        lemma_same_data_refl(ne.value.value);
                    }
                }
                assert forall|a: int, b: int| 0 <= a < b < acc2.len() implies key_of(acc2[a]) != key_of(acc2[b]) by {
                    if b == acc.len() {
                        assert(acc2[a] == acc[a]);
                        if key_of(acc[a]) == Some(k) {
                            assert(has_key(acc, k));
                        }
                    } else {
                        assert(acc2[a] == acc[a]);
                        assert(acc2[b] == acc[b]);
                    }
                }
                assert forall|q: int| 0 <= q < acc2.len() implies keys_unique(#[trigger] acc2[q].value.value) by {
                    if q < acc.len() {
                        assert(acc2[q] == acc[q]);
                    }
                }
                assert forall|q: int| 0 <= q < acc2.len() implies (#[trigger] key_of(acc2[q])) is Some by {
                    if q < acc.len() {
                        assert(acc2[q] == acc[q]);
                    }
                }
            },
        }
    }
}

/// After merging a value with unique keys into a document with unique
/// keys, the document holds exactly the new data (numbers compared
/// numerically, objects matched by key), and its keys are still unique.
pub proof fn law_merge_holds_new_data(old: ValueM, new: ValueM)
    requires
        keys_unique(old),
        keys_unique(new),
    ensures
        same_data(merge_spec(old, new), new),
        keys_unique(merge_spec(old, new)),
    decreases new,
{
    match new {
        ValueM::Number(b) => {
            law_numeric_eq_equivalence(b, b, b);
        },
        ValueM::Array { items, .. } => {
            match old {
                ValueM::Array { items: o, trailing } => {
                    let r = merge_items(o, trailing, items)->Array_items;
                    let common = if o.len() < items.len() { o.len() as int } else { items.len() as int };
                    assert forall|i: int| 0 <= i < items.len() implies same_data(r[i].value, #[trigger] items[i].value)
                        && keys_unique(r[i].value) by {
                        if i < common {
                            law_merge_holds_new_data(o[i].value, items[i].value);
                        } else {
                            lemma_same_data_refl(items[i].value);
                        }
                    }
                    assert forall|i: int| 0 <= i < r.len() implies keys_unique(#[trigger] r[i].value) by {
                        assert(same_data(r[i].value, items[i].value) && keys_unique(r[i].value));
                    }
                },
                _ => {
                    assert forall|i: int| 0 <= i < items.len() implies same_data(items[i].value, #[trigger] items[i].value) by {
                        lemma_same_data_refl(items[i].value);
                    }
                },
            }
        },
        ValueM::Object { entries: n, .. } => {
            match old {
                ValueM::Object { entries: o, trailing } => {
                    assert forall|x: ValueM, l: int|
                        #![trigger merge_spec(x, n[l].value.value)]
                        0 <= l < n.len() && keys_unique(x) implies same_data(merge_spec(x, n[l].value.value), n[l].value.value)
                            && keys_unique(merge_spec(x, n[l].value.value)) by {
                        law_merge_holds_new_data(x, n[l].value.value);
                    }
                    lemma_steps_merge(o, n, n.len() as int);
                    assert(n.subrange(0, n.len() as int) =~= n);
                    let acc = merge_entry_steps(o, n);
                    lemma_drop_stale_keeps(acc, n, Seq::empty(), trailing);
                    let out = drop_stale(acc, n, Seq::empty(), trailing).0;
                    assert forall|j: int| 0 <= j < n.len() implies (#[trigger] match_index(out, n[j])) is Some && same_data(
                        out[match_index(out, n[j])->0].value.value,
                        n[j].value.value,
                    ) by {
                        assert(key_of(n[j]) is Some);
                        let k = key_of(n[j])->0;
                        assert(has_key(n, k));
                        assert(match_index(acc, n[j]) is Some);
                        assert(first_key(acc, k) is Some);
                    }
                    assert forall|i: int| 0 <= i < out.len() implies keys_unique(#[trigger] out[i].value.value) by {
                        let j = choose|j: int| 0 <= j < acc.len() && out[i].value == acc[j].value;
                        assert(keys_unique(acc[j].value.value));
                    }
                    assert forall|i: int| 0 <= i < out.len() implies (#[trigger] key_of(out[i])) is Some by {
                        assert(key_in(out[i], n));
                    }
                },
                _ => {
                    lemma_same_data_refl(ValueM::Object { entries: n, trailing: Seq::empty() });
                },
            }
        },
        _ => {},
    }
}

// ---------------------------------------------------------------------
// Dropped keys and elements migrate their comments as `remove` would.

/// The index of the first stale entry of `es` (`es.len()` if none).
pub open spec fn first_stale(es: Seq<EntryM>, new: Seq<EntryM>) -> int
    decreases es.len(),
{
    if es.len() == 0 || is_stale(es[0], new) {
        0
    } else {
        1 + first_stale(es.drop_first(), new)
    }
}

/// The object (`es`, `trailing`) after removing its stale entries one by
/// one, first to last, each with [`Value::remove`]'s comment migration.
pub open spec fn remove_stale_one_by_one(es: Seq<EntryM>, trailing: Seq<char>, new: Seq<EntryM>) -> (
    Seq<EntryM>,
    Seq<char>,
)
    decreases es.len(),
{
    let i = first_stale(es, new);
    if 0 <= i < es.len() {
        let v = without_entry(es, trailing, i);
        remove_stale_one_by_one(v->Object_entries, v->Object_trailing, new)
    } else {
        (es, trailing)
    }
}

proof fn lemma_first_stale_bounds(es: Seq<EntryM>, new: Seq<EntryM>)
    ensures
        0 <= first_stale(es, new) <= es.len(),
        first_stale(es, new) < es.len() ==> is_stale(es[first_stale(es, new)], new),
    decreases es.len(),
{
    if es.len() > 0 && !is_stale(es[0], new) {
        lemma_first_stale_bounds(es.drop_first(), new);
        if first_stale(es.drop_first(), new) < es.len() - 1 {
            assert(es.drop_first()[first_stale(es.drop_first(), new)] == es[first_stale(es, new)]);
        }
    }
}

/// Removing stale entries behind a kept first entry leaves it in front.
proof fn lemma_remove_stale_cons(x: EntryM, r: Seq<EntryM>, trailing: Seq<char>, new: Seq<EntryM>)
    requires
        !is_stale(x, new),
    ensures
        remove_stale_one_by_one(seq![x] + r, trailing, new) == ({
            let (re, rt) = remove_stale_one_by_one(r, trailing, new);
            (seq![x] + re, rt)
        }),
    decreases r.len(),
{
    let es = seq![x] + r;
    assert(es[0] == x);
    assert(es.drop_first() =~= r);
    lemma_first_stale_bounds(r, new);
    let j = first_stale(r, new);
    assert(first_stale(es, new) == 1 + j);
    if j < r.len() {
        let w = without_entry(r, trailing, j);
        let v = without_entry(es, trailing, j + 1);
        assert(es.remove(j + 1) =~= seq![x] + r.remove(j));
        if j + 1 < r.len() {
            assert(es.remove(j + 1).update(j + 1, EntryM {
                key: crate::model::with_prefix_before(r[j].key.prefix + r[j].value.prefix, es.remove(j + 1)[j + 1].key),
                value: es.remove(j + 1)[j + 1].value,
            }) =~= seq![x] + r.remove(j).update(j, EntryM {
                key: crate::model::with_prefix_before(r[j].key.prefix + r[j].value.prefix, r.remove(j)[j].key),
                value: r.remove(j)[j].value,
            }));
        }
        assert(v->Object_entries =~= seq![x] + w->Object_entries);
        assert(v->Object_trailing == w->Object_trailing);
        lemma_remove_stale_cons(x, w->Object_entries, w->Object_trailing, new);
    }
}

/// `es` with `c` put in front of its first key's prefix.
spec fn carry_into(es: Seq<EntryM>, c: Seq<char>) -> Seq<EntryM> {
    if es.len() == 0 {
        es
    } else {
        es.update(0, EntryM { key: with_prefix_before(c, es[0].key), value: es[0].value })
    }
}

proof fn lemma_drop_stale_one_by_one(es: Seq<EntryM>, new: Seq<EntryM>, c: Seq<char>, trailing: Seq<char>)
    ensures
        drop_stale(es, new, c, trailing) == remove_stale_one_by_one(
            carry_into(es, c),
            if es.len() == 0 { c + trailing } else { trailing },
            new,
        ),
    decreases es.len(),
{
    if es.len() == 0 {
        assert(first_stale(es, new) == 0);
    } else {
        let e0 = es[0];
        let rest = es.drop_first();
        let e0c = EntryM { key: with_prefix_before(c, e0.key), value: e0.value };
        let ec = carry_into(es, c);
        assert(ec =~= seq![e0c] + rest);
        assert(is_stale(e0c, new) == is_stale(e0, new));
        if is_stale(e0, new) {
            let moved = c + e0.key.prefix + e0.value.prefix;
            lemma_drop_stale_one_by_one(rest, new, moved, trailing);
            assert(first_stale(ec, new) == 0);
            let v = without_entry(ec, trailing, 0);
            assert(ec.remove(0) =~= rest);
            assert(e0c.key.prefix + e0c.value.prefix =~= moved);
            if rest.len() > 0 {
                assert(v->Object_entries =~= carry_into(rest, moved));
            } else {
                assert(v->Object_trailing =~= moved + trailing);
            }
        } else {
            lemma_drop_stale_one_by_one(rest, new, Seq::empty(), trailing);
            assert(carry_into(rest, Seq::empty()) =~= rest) by {
                if rest.len() > 0 {
                    assert(Seq::<char>::empty() + rest[0].key.prefix =~= rest[0].key.prefix);
                }
            }
            if rest.len() == 0 {
                assert(Seq::<char>::empty() + trailing =~= trailing);
            }
            lemma_remove_stale_cons(e0c, rest, trailing, new);
        }
    }
}

/// Dropping the keys a merge no longer has carries their comments exactly
/// as removing those entries one by one with [`Value::remove`] would: each
/// removed entry's key and value prefixes land in front of the next kept
/// key, or of the object's trailing trivia.
pub proof fn law_dropping_stale_keys_is_removing_them(es: Seq<EntryM>, new: Seq<EntryM>, trailing: Seq<char>)
    ensures
        drop_stale(es, new, Seq::empty(), trailing) == remove_stale_one_by_one(es, trailing, new),
{
    lemma_drop_stale_one_by_one(es, new, Seq::empty(), trailing);
    assert(carry_into(es, Seq::empty()) =~= es) by {
        if es.len() > 0 {
            assert(Seq::<char>::empty() + es[0].key.prefix =~= es[0].key.prefix);
        }
    }
    if es.len() == 0 {
        assert(Seq::<char>::empty() + trailing =~= trailing);
    }
}

/// The array (`items`, `trailing`) after `k` removals of the element at
/// `at`, each with [`Value::remove_index`]'s comment migration.
pub open spec fn remove_at_times(items: Seq<NodeM>, trailing: Seq<char>, at: int, k: nat) -> ValueM
    decreases k,
{
    if k == 0 || !(0 <= at < items.len()) {
        ValueM::Array { items, trailing }
    } else {
        let v = without_item(items, trailing, at);
        remove_at_times(v->Array_items, v->Array_trailing, at, (k - 1) as nat)
    }
}

proof fn lemma_remove_at_times(items: Seq<NodeM>, trailing: Seq<char>, at: int, c: Seq<char>)
    requires
        0 <= at < items.len(),
    ensures
        remove_at_times(items.update(at, with_prefix_before(c, items[at])), trailing, at, (items.len() - at) as nat)
            == (ValueM::Array {
            items: items.subrange(0, at),
            trailing: c + prefixes(items.subrange(at, items.len() as int)) + trailing,
        }),
    decreases items.len() - at,
{
    let i2 = items.update(at, with_prefix_before(c, items[at]));
    let moved = c + items[at].prefix;
    let v = without_item(i2, trailing, at);
    let tail = items.subrange(at, items.len() as int);
    assert(tail[0] == items[at]);
    assert(tail.drop_first() =~= items.subrange(at + 1, items.len() as int));
    assert(prefixes(tail) == items[at].prefix + prefixes(tail.drop_first()));
    if at + 1 < items.len() {
        let rest = items.remove(at);
        assert(i2.remove(at) =~= rest);
        assert(v->Array_items =~= rest.update(at, with_prefix_before(moved, rest[at])));
        lemma_remove_at_times(rest, trailing, at, moved);
        assert(rest.subrange(0, at) =~= items.subrange(0, at));
        assert(rest.subrange(at, rest.len() as int) =~= items.subrange(at + 1, items.len() as int));
        assert(moved + prefixes(items.subrange(at + 1, items.len() as int)) + trailing =~= c + prefixes(tail) + trailing);
    } else {
        assert(i2.remove(at) =~= items.subrange(0, at));
        assert(tail.drop_first() =~= Seq::<NodeM>::empty());
        assert(prefixes(Seq::<NodeM>::empty()) == Seq::<char>::empty());
        assert(v->Array_trailing =~= c + prefixes(tail) + trailing);
        let w = remove_at_times(v->Array_items, v->Array_trailing, at, 0);
        assert(w == ValueM::Array { items: v->Array_items, trailing: v->Array_trailing });
    }
}

/// Merging a shorter array drops the extra elements exactly as removing
/// them one by one with [`Value::remove_index`] at the first extra
/// position would: their prefixes land, in order, in front of the array's
/// trailing trivia.
pub proof fn law_trimming_items_is_removing_them(old: Seq<NodeM>, trailing: Seq<char>, new: Seq<NodeM>)
    requires
        new.len() <= old.len(),
    ensures
        merge_items(old, trailing, new) == remove_at_times(
            merge_items(old, trailing, new)->Array_items + old.subrange(new.len() as int, old.len() as int),
            trailing,
            new.len() as int,
            (old.len() - new.len()) as nat,
        ),
{
    let m = merge_items(old, trailing, new)->Array_items;
    let all = m + old.subrange(new.len() as int, old.len() as int);
    let at = new.len() as int;
    if at < old.len() {
        assert(all.update(at, with_prefix_before(Seq::empty(), all[at])) =~= all) by {
            assert(Seq::<char>::empty() + all[at].prefix =~= all[at].prefix);
        }
        lemma_remove_at_times(all, trailing, at, Seq::empty());
        assert(all.subrange(0, at) =~= m);
        assert(all.subrange(at, all.len() as int) =~= old.subrange(at, old.len() as int));
        assert(Seq::<char>::empty() + prefixes(old.subrange(at, old.len() as int)) + trailing =~= prefixes(
            old.subrange(at, old.len() as int),
        ) + trailing);
    } else {
        assert(all =~= m);
        assert(old.subrange(at, at) =~= Seq::<NodeM>::empty());
        assert(prefixes(Seq::<NodeM>::empty()) + trailing =~= trailing);
    }
}

/// Merges the comment-free `new` value into `dest`, in place: see
/// [`merge_spec`].
pub fn merge_value(dest: &mut Value, new: Value)
    ensures
        final(dest)@ == merge_spec(old(dest)@, new@),
    decreases new, 0int,
{
    broadcast use crate::group_view;
    match new {
        Value::Null => {
            let same = match dest {
                Value::Null => true,
                _ => false,
            };
            if !same {
                *dest = Value::Null;
            }
        },
        Value::Bool(b) => {
            let same = match dest {
                Value::Bool(a) => *a == b,
                _ => false,
            };
            if !same {
                *dest = Value::Bool(b);
            }
        },
        Value::Number(b) => {
            // Numerically, not textually: `1.50` in the file and `1.5` from
            // the typed value are the same number, and the file's literal is
            // kept.
            let same = match dest {
                Value::Number(a) => a.numeric_eq(&b),
                _ => false,
            };
            if !same {
                *dest = Value::Number(b);
            }
        },
        Value::Str(b) => {
            let same = match dest {
                Value::Str(a) => str_eq(a.as_str(), b.as_str()),
                _ => false,
            };
            if !same {
                *dest = Value::Str(b);
            }
        },
        Value::Array { items, trailing: _ } => {
            let is_array = match dest {
                Value::Array { .. } => true,
                _ => false,
            };
            if is_array {
                merge_array(dest, items);
            } else {
                *dest = Value::Array { items, trailing: String::new() };
            }
        },
        Value::Object { entries, trailing: _ } => {
            let is_object = match dest {
                Value::Object { .. } => true,
                _ => false,
            };
            if is_object {
                merge_object(dest, entries);
            } else {
                *dest = Value::Object { entries, trailing: String::new() };
            }
        },
    }
}

/// Position by position up to the shorter length, then append the extra
/// new elements or drop the extra old ones (carrying their prefixes into
/// the array's trailing trivia).
#[verifier::loop_isolation(false)]
fn merge_array(dest: &mut Value, new_items: Vec<Node>)
    requires
        old(dest)@ is Array,
    ensures
        final(dest)@ == merge_items(old(dest)@->Array_items, old(dest)@->Array_trailing, nodes_model(new_items@)),
    decreases new_items, 0int,
{
    broadcast use crate::group_view;
    let ghost new_vec = new_items;
    let ghost new_exec = new_items@;
    let ghost new_m = nodes_model(new_items@);
    let new_len = new_items.len();
    let mut rest = new_items;
    match dest {
        Value::Array { items, trailing } => {
            let ghost old_m = nodes_model(items@);
            let ghost old_trailing = trailing@;
            let old_len = items.len();
            let common = if old_len < new_len { old_len } else { new_len };
            let mut i: usize = 0;
            while i < common
                invariant
                    i <= common,
                    common <= old_len,
                    common <= new_len,
                    common == old_len || common == new_len,
                    items@.len() == old_len,
                    rest@.len() == new_len,
                    old_m.len() == old_len,
                    new_m.len() == new_len,
                    new_exec.len() == new_len,
                    new_vec@ == new_exec,
                    new_m == nodes_model(new_exec),
                    trailing@ == old_trailing,
                    forall|j: int| 0 <= j < i ==> #[trigger] items@[j]@ == (NodeM {
                        prefix: old_m[j].prefix,
                        value: merge_spec(old_m[j].value, new_m[j].value),
                    }),
                    forall|j: int| i <= j < old_len ==> #[trigger] items@[j]@ == old_m[j],
                    forall|j: int| i <= j < new_len ==> #[trigger] rest@[j] == new_exec[j],
                decreases common - i,
            {
                let mut taken = Node { prefix: String::new(), value: Value::Null };
                std::mem::swap(&mut taken, &mut rest[i]);
                proof {
                    assert(taken == new_exec[i as int]);
                    assert(decreases_to!(new_vec => new_vec@));
                    assert(decreases_to!(new_vec@ => new_vec@[i as int]));
                    assert(decreases_to!(new_vec@[i as int] => new_vec@[i as int].value));
                    assert(taken@ == new_m[i as int]);
                    assert(decreases_to!(new_vec => taken.value));
                }
                let ghost items_before = items@;
                merge_value(&mut items[i].value, taken.value);
                proof {
                    assert(items@ =~= items_before.update(i as int, items@[i as int]));
                    assert(items@[i as int].prefix == items_before[i as int].prefix);
                    assert(items_before[i as int]@ == old_m[i as int]);
                    assert(new_m[i as int].value == taken.value@);
                    assert(old_m[i as int].value == items_before[i as int].value@);
                    assert(items@[i as int].value@ == merge_spec(items_before[i as int].value@, taken.value@));
                    assert(items@[i as int]@ == (NodeM {
                        prefix: old_m[i as int].prefix,
                        value: merge_spec(old_m[i as int].value, new_m[i as int].value),
                    }));
                }
                i += 1;
            }
            if new_len > old_len {
                let mut j: usize = old_len;
                while j < new_len
                    invariant
                        common == old_len,
                        old_len <= j <= new_len,
                        items@.len() == j,
                        rest@.len() == new_len,
                        old_m.len() == old_len,
                        new_m.len() == new_len,
                        new_m == nodes_model(new_exec),
                        trailing@ == old_trailing,
                        forall|k: int| 0 <= k < common ==> #[trigger] items@[k]@ == (NodeM {
                            prefix: old_m[k].prefix,
                            value: merge_spec(old_m[k].value, new_m[k].value),
                        }),
                        forall|k: int| old_len <= k < j ==> #[trigger] items@[k]@ == new_m[k],
                        forall|k: int| j <= k < new_len ==> #[trigger] rest@[k] == new_exec[k],
                    decreases new_len - j,
                {
                    let mut taken = Node { prefix: String::new(), value: Value::Null };
                    std::mem::swap(&mut taken, &mut rest[j]);
                    items.push(taken);
                    j += 1;
                }
                proof {
                    let merged = merge_items(old_m, old_trailing, new_m)->Array_items;
                    assert(nodes_model(items@) =~= merged);
                }
            } else {
                let mut t = String::new();
                std::mem::swap(&mut t, trailing);
                while items.len() > common
                    invariant
                        common == new_len,
                        common <= items@.len() <= old_len,
                        old_m.len() == old_len,
                        new_m.len() == new_len,
                        forall|k: int| 0 <= k < common ==> #[trigger] items@[k]@ == (NodeM {
                            prefix: old_m[k].prefix,
                            value: merge_spec(old_m[k].value, new_m[k].value),
                        }),
                        forall|k: int| common <= k < items@.len() ==> #[trigger] items@[k]@ == old_m[k],
                        t@ == prefixes(old_m.subrange(items@.len() as int, old_len as int)) + old_trailing,
                    decreases items@.len(),
                {
                    let ghost len = items@.len();
                    let last = items.pop().unwrap();
                    proof {
                        let tail = old_m.subrange(len - 1, old_len as int);
                        assert(tail.drop_first() =~= old_m.subrange(len as int, old_len as int));
                        assert(last@ == old_m[len - 1]);
                    }
                    t = concat_prefix(last.prefix, t);
                    proof {
                        assert(t@ =~= prefixes(old_m.subrange(items@.len() as int, old_len as int)) + old_trailing);
                    }
                }
                *trailing = t;
                proof {
                    let merged = merge_items(old_m, old_trailing, new_m)->Array_items;
                    assert(nodes_model(items@) =~= merged);
                }
            }
        },
        _ => {},
    }
}

/// The keys in `seen`, as character sequences.
spec fn keys_view(seen: Seq<String>) -> Seq<Seq<char>> {
    seen.map_values(|k: String| k@)
}

/// Whether `key` is one of `seen`.
fn is_seen(seen: &Vec<String>, key: &str) -> (r: bool)
    ensures
        r == keys_view(seen@).contains(key@),
{
    let mut i: usize = 0;
    while i < seen.len()
        invariant
            i <= seen@.len(),
            forall|j: int| 0 <= j < i ==> #[trigger] seen@[j]@ != key@,
        decreases seen.len() - i,
    {
        if str_eq(seen[i].as_str(), key) {
            assert(keys_view(seen@)[i as int] == key@);
            return true;
        }
        i += 1;
    }
    assert(!keys_view(seen@).contains(key@)) by {
        if keys_view(seen@).contains(key@) {
            let j = choose|j: int| 0 <= j < keys_view(seen@).len() && keys_view(seen@)[j] == key@;
            assert(seen@[j]@ == key@);
        }
    }
    false
}

/// Keys in both are merged in place (keeping the old order), keys only in
/// `new_entries` are appended, keys only in `old` are dropped.
#[verifier::loop_isolation(false)]
fn merge_object(dest: &mut Value, new_entries: Vec<Entry>)
    requires
        old(dest)@ is Object,
    ensures
        final(dest)@ == merge_entries(old(dest)@->Object_entries, old(dest)@->Object_trailing, entries_model(new_entries@)),
    decreases new_entries, 0int,
{
    broadcast use crate::group_view;
    let ghost new_vec = new_entries;
    let ghost new_exec = new_entries@;
    let ghost new_m = entries_model(new_entries@);
    let n = new_entries.len();
    let mut rest = new_entries;
    let mut seen: Vec<String> = Vec::new();
    match dest {
        Value::Object { entries, trailing } => {
            let ghost old_m = entries_model(entries@);
            let ghost old_trailing = trailing@;
            let mut i: usize = 0;
            while i < n
                invariant
                    i <= n,
                    rest@.len() == n,
                    new_m.len() == n,
                    new_exec.len() == n,
                    new_vec@ == new_exec,
                    new_m == entries_model(new_exec),
                    trailing@ == old_trailing,
                    entries_model(entries@) == merge_entry_steps(old_m, new_m.subrange(0, i as int)),
                    forall|k: Seq<char>| keys_view(seen@).contains(k) <==> has_key(new_m.subrange(0, i as int), k),
                    forall|j: int| i <= j < n ==> #[trigger] rest@[j] == new_exec[j],
                decreases n - i,
            {
                let mut taken = Entry { key: Node::new(Value::Null), value: Node::new(Value::Null) };
                std::mem::swap(&mut taken, &mut rest[i]);
                let ghost before = entries_model(entries@);
                let ghost ne = new_m[i as int];
                proof {
                    assert(taken == new_exec[i as int]);
                    assert(decreases_to!(new_vec => new_vec@));
                    assert(decreases_to!(new_vec@ => new_vec@[i as int]));
                    assert(decreases_to!(new_vec@[i as int] => new_vec@[i as int].value));
                    assert(decreases_to!(new_vec@[i as int].value => new_vec@[i as int].value.value));
                    assert(new_m.subrange(0, i + 1).drop_last() =~= new_m.subrange(0, i as int));
                    assert(new_m.subrange(0, i + 1).last() == ne);
                    assert(merge_entry_steps(old_m, new_m.subrange(0, i + 1)) == merge_entry_step(before, ne));
                }
                let Entry { key: nk, value: nv } = taken;
                match nk.value {
                    Value::Str(s) => {
                        let key = s.value;
                        match find_key(entries, key.as_str()) {
                            Some(k) => {
                                merge_value(&mut entries[k].value.value, nv.value);
                                proof {
                                    assert(entries_model(entries@) =~= merge_entry_step(before, ne));
                                }
                            },
                            None => {
                                entries.push(Entry { key: Node::new(Value::Str(CsonStr { value: key.clone() })), value: nv });
                                proof {
                                    assert(entries_model(entries@) =~= merge_entry_step(before, ne));
                                }
                            },
                        }
                        let ghost seen_before = keys_view(seen@);
                        seen.push(key);
                        proof {
                            assert(keys_view(seen@) =~= seen_before.push(key@));
                            assert(key_of(ne) == Some(key@));
                            let pre = new_m.subrange(0, i as int);
                            let post = new_m.subrange(0, i + 1);
                            assert forall|k: Seq<char>| keys_view(seen@).contains(k) <==> has_key(post, k) by {
                                assert(keys_view(seen@).contains(k) <==> (seen_before.contains(k) || k == key@)) by {
                                    if seen_before.contains(k) {
                                        let w = choose|w: int| 0 <= w < seen_before.len() && seen_before[w] == k;
                                        assert(keys_view(seen@)[w] == k);
                                    }
                                    if k == key@ {
                                        assert(keys_view(seen@)[seen_before.len() as int] == k);
                                    }
                                    if keys_view(seen@).contains(k) {
                                        let w = choose|w: int| 0 <= w < keys_view(seen@).len() && keys_view(seen@)[w] == k;
                                        if w < seen_before.len() {
                                            assert(seen_before[w] == k);
                                        }
                                    }
                                }
                                assert(seen_before.contains(k) <==> has_key(pre, k));
                                if has_key(post, k) && k != key@ {
                                    let w = choose|w: int| 0 <= w < post.len() && #[trigger] key_of(post[w]) == Some(k);
                                    assert(w < i);
                                    assert(key_of(pre[w]) == Some(k));
                                }
                                if has_key(pre, k) {
                                    let w = choose|w: int| 0 <= w < pre.len() && #[trigger] key_of(pre[w]) == Some(k);
                                    assert(key_of(post[w]) == Some(k));
                                }
                                if k == key@ {
                                    assert(key_of(post[i as int]) == Some(k));
                                }
                            }
                        }
                    },
                    _ => {
                        proof {
                            assert(key_of(ne) is None);
                            assert(entries_model(entries@) == merge_entry_step(before, ne));
                            assert forall|k: Seq<char>| has_key(new_m.subrange(0, i + 1), k) <==> has_key(new_m.subrange(0, i as int), k) by {
                                if has_key(new_m.subrange(0, i + 1), k) {
                                    let w = choose|w: int| 0 <= w < i + 1 && #[trigger] key_of(new_m.subrange(0, i + 1)[w]) == Some(k);
                                    assert(key_of(new_m.subrange(0, i as int)[w]) == Some(k));
                                }
                                if has_key(new_m.subrange(0, i as int), k) {
                                    let w = choose|w: int| 0 <= w < i && #[trigger] key_of(new_m.subrange(0, i as int)[w]) == Some(k);
                                    assert(key_of(new_m.subrange(0, i + 1)[w]) == Some(k));
                                }
                            }
                        }
                    },
                }
                i += 1;
            }
            proof {
                assert(new_m.subrange(0, n as int) =~= new_m);
            }
            let ghost acc = entries_model(entries@);
            let mut all: Vec<Entry> = Vec::new();
            std::mem::swap(&mut all, entries);
            let ghost all_exec = all@;
            let mut carry = String::new();
            let mut t = String::new();
            std::mem::swap(&mut t, trailing);
            let mut j: usize = 0;
            proof {
                assert(acc.subrange(0, acc.len() as int) =~= acc);
                let (r, tr) = drop_stale(acc, new_m, Seq::empty(), old_trailing);
                assert(entries_model(entries@) + r =~= r);
            }
            while j < all.len()
                invariant
                    j <= all@.len(),
                    all@.len() == acc.len(),
                    acc == entries_model(all_exec),
                    t@ == old_trailing,
                    forall|k: Seq<char>| keys_view(seen@).contains(k) <==> has_key(new_m, k),
                    forall|k: int| j <= k < acc.len() ==> #[trigger] all@[k] == all_exec[k],
                    ({
                        let (r, tr) = drop_stale(acc.subrange(j as int, acc.len() as int), new_m, carry@, old_trailing);
                        (entries_model(entries@) + r, tr) == drop_stale(acc, new_m, Seq::empty(), old_trailing)
                    }),
                decreases all.len() - j,
            {
                let mut e = Entry { key: Node::new(Value::Null), value: Node::new(Value::Null) };
                std::mem::swap(&mut e, &mut all[j]);
                let ghost sub = acc.subrange(j as int, acc.len() as int);
                proof {
                    assert(e@ == acc[j as int]);
                    assert(sub[0] == acc[j as int]);
                    assert(sub.drop_first() =~= acc.subrange(j + 1, acc.len() as int));
                }
                let stale = match e.key_str() {
                    Some(k) => !is_seen(&seen, k),
                    None => false,
                };
                assert(stale == is_stale(acc[j as int], new_m));
                let ghost carry_before = carry@;
                let ghost ej = acc[j as int];
                let Entry { key, value } = e;
                if stale {
                    let kv = concat_prefix(key.prefix, value.prefix);
                    carry = concat_prefix(carry, kv);
                    proof {
                        assert(carry@ =~= carry_before + ej.key.prefix + ej.value.prefix);
                        assert(drop_stale(sub, new_m, carry_before, old_trailing) == drop_stale(
                            sub.drop_first(),
                            new_m,
                            carry_before + ej.key.prefix + ej.value.prefix,
                            old_trailing,
                        ));
                    }
                } else {
                    let mut c = String::new();
                    std::mem::swap(&mut c, &mut carry);
                    let ghost before = entries_model(entries@);
                    entries.push(Entry { key: Node { prefix: concat_prefix(c, key.prefix), value: key.value }, value });
                    proof {
                        let kept = EntryM { key: with_prefix_before(carry_before, ej.key), value: ej.value };
                        assert(entries_model(entries@) =~= before.push(kept));
                        let (r, tr) = drop_stale(sub.drop_first(), new_m, Seq::empty(), old_trailing);
                        assert(drop_stale(sub, new_m, carry_before, old_trailing) == (seq![kept] + r, tr));
                        assert(entries_model(entries@) + r =~= before + (seq![kept] + r));
                        assert(carry@ =~= Seq::<char>::empty());
                    }
                }
                j += 1;
            }
            proof {
                assert(acc.subrange(j as int, acc.len() as int) =~= Seq::<EntryM>::empty());
            }
            *trailing = concat_prefix(carry, t);
        },
        _ => {},
    }
}

} // verus!
