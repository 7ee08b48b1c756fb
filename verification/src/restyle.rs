//! Reading the writer's text back records the style it was written with.
//!
//! The parser latches each style field at its first observation. Over the
//! writer's text every observation of a field is the same (the writer
//! renders each choice one way throughout), so what the parser records
//! depends only on which constructs the tree holds; [`lemma_ob_value`]
//! and its companions give it in closed form. On the other side the
//! parser, reading any text, latches a field only where the tree it builds
//! holds the construct that shows it ([`lemma_pv_marks`] and companions).
//! Together they give the style part of
//! [`crate::fixpoint::law_write_then_parse_round_trip`].

use vstd::prelude::*;
use crate::lexer::{bare_end, is_id_end_spec, is_id_start_spec, lemma_bare_end, lex_from, lex_spec, lex_step, opt_seq, ItemM, TokM};
use crate::model::{DocumentM, EntryM, NodeM, ValueM};
use crate::parser::{
    ctx_of, is_tok, note_commas, p_arr_items, p_array, p_bare_root, p_key, p_obj_entries, p_object, p_sep, p_value,
    parse_spec, real_toks, strip_bom, verb_end, verb_join, PCtx,
};
use crate::roundtrip::{is_vw, key_kind, key_text, ob_doc, ob_entries, ob_entry, ob_items, ob_sep, ob_value};
use crate::style::{empty_style, latch, KeyStyle, Quote, Style};
use crate::writer::{is_valid_bare_spec, w_comma};

verus! {

/// A property of one value, not looking inside it.
pub enum Mark {
    /// An object with an entry.
    HasEntry,
    /// An array or object with an element.
    Filled,
    /// An array or object with two elements or more.
    Several,
    /// A string the style writes quoted.
    Quoted(Style),
    /// A string the style writes as verbatim fragments.
    Fragmented(Style),
    /// A string that holds a line break.
    Multiline,
    /// An object with a key the style writes in the value quote: one it
    /// would write bare, but that is not a valid bare key.
    KeyQuoted(Style),
}

/// The style writes `key` bare or in the key quote, not in the value
/// quote.
pub open spec fn key_plain(key: NodeM, st: Style) -> bool {
    !(st.eff_key_style() == KeyStyle::Bare && !is_valid_bare_spec(key_text(key)))
}

pub open spec fn marks(x: NodeM, m: Mark) -> bool {
    match m {
        Mark::HasEntry => x.value matches ValueM::Object { entries, .. } && entries.len() > 0,
        Mark::Filled => (x.value matches ValueM::Array { items, .. } && items.len() > 0) || (
        x.value matches ValueM::Object { entries, .. } && entries.len() > 0),
        Mark::Several => (x.value matches ValueM::Array { items, .. } && items.len() >= 2) || (
        x.value matches ValueM::Object { entries, .. } && entries.len() >= 2),
        Mark::Quoted(st) => x.value is Str && !is_vw(x, st),
        Mark::Fragmented(st) => is_vw(x, st),
        Mark::Multiline => x.value matches ValueM::Str(t) && t.contains('\n'),
        Mark::KeyQuoted(st) => x.value matches ValueM::Object { entries, .. } && exists|k: int|
            0 <= k < entries.len() && !key_plain(#[trigger] entries[k].key, st),
    }
}

/// Some value in `n` (itself, an element, an entry's value, at any
/// depth; keys are not values) has the mark.
pub open spec fn any_value(n: NodeM, m: Mark) -> bool
    decreases n, 0int,
{
    marks(n, m) || match n.value {
        ValueM::Array { items, .. } => any_items(items, 0, m),
        ValueM::Object { entries, .. } => any_entries(entries, 0, m),
        _ => false,
    }
}

/// See [`any_value`]: elements `k..`.
pub open spec fn any_items(items: Seq<NodeM>, k: int, m: Mark) -> bool
    decreases items, items.len() - k,
{
    if 0 <= k < items.len() {
        any_value(items[k], m) || any_items(items, k + 1, m)
    } else {
        false
    }
}

/// See [`any_value`]: one entry's value.
pub open spec fn any_entry(e: EntryM, m: Mark) -> bool
    decreases e, 0int,
{
    any_value(e.value, m)
}

/// See [`any_value`]: entries `k..`.
pub open spec fn any_entries(entries: Seq<EntryM>, k: int, m: Mark) -> bool
    decreases entries, entries.len() - k,
{
    if 0 <= k < entries.len() {
        any_entry(entries[k], m) || any_entries(entries, k + 1, m)
    } else {
        false
    }
}

/// The first key in `n`, in document order.
pub open spec fn first_key(n: NodeM) -> Option<NodeM>
    decreases n, 0int,
{
    match n.value {
        ValueM::Array { items, .. } => first_key_items(items, 0),
        ValueM::Object { entries, .. } => if entries.len() > 0 {
            Some(entries[0].key)
        } else {
            None
        },
        _ => None,
    }
}

/// See [`first_key`]: elements `k..`.
pub open spec fn first_key_items(items: Seq<NodeM>, k: int) -> Option<NodeM>
    decreases items, items.len() - k,
{
    if 0 <= k < items.len() {
        match first_key(items[k]) {
            Some(x) => Some(x),
            None => first_key_items(items, k + 1),
        }
    } else {
        None
    }
}

/// The style writes a comma after the last element.
pub open spec fn wct(st: Style) -> bool {
    w_comma(st, true).len() > 0
}

/// Latches `f` to `x` when `b` holds.
pub open spec fn latch_if<T>(b: bool, f: Option<T>, x: T) -> Option<T> {
    if b {
        latch(f, x)
    } else {
        f
    }
}

/// Latches `f` to the key's kind when there is a key.
pub open spec fn latch_key(k: Option<NodeM>, f: Option<KeyStyle>, st: Style) -> Option<KeyStyle> {
    match k {
        Some(key) => latch(f, key_kind(key, st)),
        None => f,
    }
}

/// What the parser records while reading value `n` as written with `st`,
/// starting from `s`, field by field.
pub open spec fn ob_value_is(r: Style, n: NodeM, st: Style, s: Style) -> bool {
    &&& r.separator == latch_if(any_value(n, Mark::HasEntry), s.separator, st.eff_separator())
    &&& r.value_quote == latch_if(any_value(n, Mark::Quoted(st)), s.value_quote, st.eff_value_quote())
    &&& r.verbatim_strings == latch_if(any_value(n, Mark::Fragmented(st)), s.verbatim_strings, true)
    &&& r.key_style == latch_key(first_key(n), s.key_style, st)
    &&& r.commas == latch_if(
        any_value(n, Mark::Several) || (any_value(n, Mark::Filled) && wct(st)),
        s.commas,
        st.eff_commas(),
    )
    &&& r.trailing_comma == latch_if(any_value(n, Mark::Filled), s.trailing_comma, wct(st))
    &&& r.indent == s.indent
}

/// See [`ob_value_is`]: elements `k..`.
pub open spec fn ob_items_is(r: Style, items: Seq<NodeM>, k: int, st: Style, s: Style) -> bool {
    &&& r.separator == latch_if(any_items(items, k, Mark::HasEntry), s.separator, st.eff_separator())
    &&& r.value_quote == latch_if(any_items(items, k, Mark::Quoted(st)), s.value_quote, st.eff_value_quote())
    &&& r.verbatim_strings == latch_if(any_items(items, k, Mark::Fragmented(st)), s.verbatim_strings, true)
    &&& r.key_style == latch_key(first_key_items(items, k), s.key_style, st)
    &&& r.commas == latch_if(
        items.len() - k >= 2 || any_items(items, k, Mark::Several) || (k < items.len() && wct(st)),
        s.commas,
        st.eff_commas(),
    )
    &&& r.trailing_comma == latch_if(any_items(items, k, Mark::Filled), s.trailing_comma, wct(st))
    &&& r.indent == s.indent
}

/// See [`ob_value_is`]: entries `k..`.
pub open spec fn ob_entries_is(r: Style, entries: Seq<EntryM>, k: int, st: Style, s: Style) -> bool {
    &&& r.separator == latch_if(k < entries.len(), s.separator, st.eff_separator())
    &&& r.value_quote == latch_if(any_entries(entries, k, Mark::Quoted(st)), s.value_quote, st.eff_value_quote())
    &&& r.verbatim_strings == latch_if(any_entries(entries, k, Mark::Fragmented(st)), s.verbatim_strings, true)
    &&& r.key_style == latch_key(if k < entries.len() { Some(entries[k].key) } else { None }, s.key_style, st)
    &&& r.commas == latch_if(
        entries.len() - k >= 2 || any_entries(entries, k, Mark::Several) || (k < entries.len() && wct(st)),
        s.commas,
        st.eff_commas(),
    )
    &&& r.trailing_comma == latch_if(any_entries(entries, k, Mark::Filled), s.trailing_comma, wct(st))
    &&& r.indent == s.indent
}

proof fn lemma_ob_sep(st: Style, is_last: bool, s: Style)
    ensures
        ob_sep(st, is_last, s) == (Style {
            commas: latch_if(!is_last || wct(st), s.commas, st.eff_commas()),
            ..s
        }),
{
}

pub proof fn lemma_ob_value(n: NodeM, st: Style, s: Style)
    ensures
        ob_value_is(ob_value(n, st, s), n, st, s),
    decreases n, 0int,
{
    match n.value {
        ValueM::Array { items, .. } => {
            lemma_ob_items(items, 0, st, s);
        },
        ValueM::Object { entries, .. } => {
            lemma_ob_entries(entries, 0, st, s);
        },
        _ => {},
    }
}

pub proof fn lemma_ob_items(items: Seq<NodeM>, k: int, st: Style, s: Style)
    requires
        0 <= k <= items.len(),
    ensures
        ob_items_is(ob_items(items, k, st, s), items, k, st, s),
    decreases items, items.len() - k,
{
    if k < items.len() {
        let last = k + 1 == items.len();
        let a = ob_value(items[k], st, s);
        lemma_ob_value(items[k], st, s);
        lemma_ob_sep(st, last, a);
        lemma_ob_items(items, k + 1, st, ob_sep(st, last, a));
    }
}

proof fn lemma_ob_entry(e: EntryM, is_last: bool, st: Style, s: Style)
    ensures
        ({
            let r = ob_entry(e, is_last, st, s);
            &&& r.separator == latch(s.separator, st.eff_separator())
            &&& r.value_quote == latch_if(any_value(e.value, Mark::Quoted(st)), s.value_quote, st.eff_value_quote())
            &&& r.verbatim_strings == latch_if(any_value(e.value, Mark::Fragmented(st)), s.verbatim_strings, true)
            &&& r.key_style == latch(s.key_style, key_kind(e.key, st))
            &&& r.commas == latch_if(
                any_value(e.value, Mark::Several) || (any_value(e.value, Mark::Filled) && wct(st)) || !is_last || wct(
                    st,
                ),
                s.commas,
                st.eff_commas(),
            )
            &&& r.trailing_comma == latch_if(any_value(e.value, Mark::Filled), s.trailing_comma, wct(st))
            &&& r.indent == s.indent
        }),
    decreases e, 0int,
{
    let s2 = crate::parser::note_separator(crate::parser::note_key_style(s, key_kind(e.key, st)), st.eff_separator());
    lemma_ob_value(e.value, st, s2);
    lemma_ob_sep(st, is_last, ob_value(e.value, st, s2));
}

pub proof fn lemma_ob_entries(entries: Seq<EntryM>, k: int, st: Style, s: Style)
    requires
        0 <= k <= entries.len(),
    ensures
        ob_entries_is(ob_entries(entries, k, st, s), entries, k, st, s),
    decreases entries, entries.len() - k,
{
    if k < entries.len() {
        let last = k + 1 == entries.len();
        let a = ob_entry(entries[k], last, st, s);
        lemma_ob_entry(entries[k], last, st, s);
        lemma_ob_entries(entries, k + 1, st, a);
        assert(any_entry(entries[k], Mark::Quoted(st)) == any_value(entries[k].value, Mark::Quoted(st)));
        assert(any_entry(entries[k], Mark::Fragmented(st)) == any_value(entries[k].value, Mark::Fragmented(st)));
        assert(any_entry(entries[k], Mark::Several) == any_value(entries[k].value, Mark::Several));
        assert(any_entry(entries[k], Mark::Filled) == any_value(entries[k].value, Mark::Filled));
    }
}

// ---------------------------------------------------------------------
// What the parser records, reading any text.

/// Every bare token is a valid bare key.
pub open spec fn toks_bare_valid(toks: Seq<TokM>) -> bool {
    forall|k: int| 0 <= k < toks.len() ==> (#[trigger] toks[k] matches TokM::Bare(t) ==> is_valid_bare_spec(t))
}

/// What a parsed tree shows of the style: whether it has an entry, its
/// first key, whether a container has two elements or more, whether one
/// has an element, whether a string holds a line break.
pub struct Seen {
    pub entry: bool,
    pub key: Option<NodeM>,
    pub several: bool,
    pub filled: bool,
    pub multiline: bool,
}

pub open spec fn seen_none() -> Seen {
    Seen { entry: false, key: None, several: false, filled: false, multiline: false }
}

/// `a`, then `b`.
pub open spec fn seen_then(a: Seen, b: Seen) -> Seen {
    Seen {
        entry: a.entry || b.entry,
        key: if a.key is Some {
            a.key
        } else {
            b.key
        },
        several: a.several || b.several,
        filled: a.filled || b.filled,
        multiline: a.multiline || b.multiline,
    }
}

pub open spec fn seen_value(m: NodeM) -> Seen {
    Seen {
        entry: any_value(m, Mark::HasEntry),
        key: first_key(m),
        several: any_value(m, Mark::Several),
        filled: any_value(m, Mark::Filled),
        multiline: any_value(m, Mark::Multiline),
    }
}

pub open spec fn seen_items(xs: Seq<NodeM>) -> Seen {
    Seen {
        entry: any_items(xs, 0, Mark::HasEntry),
        key: first_key_items(xs, 0),
        several: xs.len() >= 2 || any_items(xs, 0, Mark::Several),
        filled: any_items(xs, 0, Mark::Filled),
        multiline: any_items(xs, 0, Mark::Multiline),
    }
}

pub open spec fn seen_entries(es: Seq<EntryM>) -> Seen {
    Seen {
        entry: es.len() > 0,
        key: if es.len() > 0 {
            Some(es[0].key)
        } else {
            None
        },
        several: es.len() >= 2 || any_entries(es, 0, Mark::Several),
        filled: any_entries(es, 0, Mark::Filled),
        multiline: any_entries(es, 0, Mark::Multiline),
    }
}

/// A key fits the key style it was recorded with.
pub open spec fn key_fits(key: NodeM, k: KeyStyle) -> bool {
    k == KeyStyle::Bare ==> is_valid_bare_spec(key_text(key))
}

/// Going from `s0` to `s`, the parser latched a field only where the
/// tree shows the construct: a separator at an entry, the key style at the
/// first key (bare only where that key is a valid bare key), no commas
/// between two elements, the trailing comma at a filled container,
/// verbatim strings (never `false`) at a string with a line break.
pub open spec fn recorded(s: Style, s0: Style, w: Seen) -> bool {
    &&& (s.separator is Some ==> s0.separator is Some || w.entry)
    &&& (s.key_style is Some ==> s0.key_style is Some || w.key is Some)
    &&& (s0.key_style is Some ==> s.key_style == s0.key_style)
    &&& (s0.key_style is None && w.key is Some ==> s.key_style is Some && key_fits(w.key->0, s.key_style->0))
    &&& (s.commas == Some(false) ==> s0.commas == Some(false) || w.several)
    &&& (s.trailing_comma is Some ==> s0.trailing_comma is Some || w.filled)
    &&& (s.verbatim_strings is Some ==> s.verbatim_strings == s0.verbatim_strings || (s.verbatim_strings == Some(true)
        && w.multiline))
}

proof fn lemma_recorded_trans(s0: Style, s1: Style, s2: Style, a: Seen, b: Seen)
    requires
        recorded(s1, s0, a),
        recorded(s2, s1, b),
    ensures
        recorded(s2, s0, seen_then(a, b)),
{
}

proof fn lemma_any_items_cons(x: NodeM, rest: Seq<NodeM>, j: int, m: Mark)
    requires
        0 <= j,
    ensures
        any_items(seq![x] + rest, j + 1, m) == any_items(rest, j, m),
        first_key_items(seq![x] + rest, j + 1) == first_key_items(rest, j),
    decreases rest.len() - j,
{
    let xs = seq![x] + rest;
    if j < rest.len() {
        assert(xs[j + 1] == rest[j]);
        lemma_any_items_cons(x, rest, j + 1, m);
    }
}

proof fn lemma_any_entries_cons(e: EntryM, rest: Seq<EntryM>, j: int, m: Mark)
    requires
        0 <= j,
    ensures
        any_entries(seq![e] + rest, j + 1, m) == any_entries(rest, j, m),
    decreases rest.len() - j,
{
    let es = seq![e] + rest;
    if j < rest.len() {
        assert(es[j + 1] == rest[j]);
        lemma_any_entries_cons(e, rest, j + 1, m);
    }
}

proof fn lemma_seen_items_cons(x: NodeM, rest: Seq<NodeM>)
    requires
        rest.len() > 0,
    ensures
        seen_items(seq![x] + rest) == (Seen { several: true, ..seen_then(seen_value(x), seen_items(rest)) }),
{
    let xs = seq![x] + rest;
    assert(xs[0] == x);
    lemma_any_items_cons(x, rest, 0, Mark::HasEntry);
    lemma_any_items_cons(x, rest, 0, Mark::Several);
    lemma_any_items_cons(x, rest, 0, Mark::Filled);
    lemma_any_items_cons(x, rest, 0, Mark::Multiline);
}

proof fn lemma_seen_items_one(x: NodeM)
    ensures
        seen_items(seq![x]) == seen_value(x),
{
    let xs = seq![x];
    assert(xs[0] == x);
    assert(any_items(xs, 1, Mark::HasEntry) == false);
    assert(any_items(xs, 1, Mark::Several) == false);
    assert(any_items(xs, 1, Mark::Filled) == false);
    assert(any_items(xs, 1, Mark::Multiline) == false);
    assert(first_key_items(xs, 1) == None::<NodeM>);
}

proof fn lemma_seen_entries_cons(e: EntryM, rest: Seq<EntryM>)
    requires
        rest.len() > 0,
    ensures
        seen_entries(seq![e] + rest) == (Seen { several: true, ..seen_then(seen_entry(e), seen_entries(rest)) }),
{
    let es = seq![e] + rest;
    assert(es[0] == e);
    assert(any_entry(e, Mark::Several) == any_value(e.value, Mark::Several));
    assert(any_entry(e, Mark::Filled) == any_value(e.value, Mark::Filled));
    assert(any_entry(e, Mark::Multiline) == any_value(e.value, Mark::Multiline));
    lemma_any_entries_cons(e, rest, 0, Mark::Several);
    lemma_any_entries_cons(e, rest, 0, Mark::Filled);
    lemma_any_entries_cons(e, rest, 0, Mark::Multiline);
}

proof fn lemma_seen_entries_one(e: EntryM)
    ensures
        seen_entries(seq![e]) == seen_entry(e),
{
    let es = seq![e];
    assert(es[0] == e);
    assert(any_entry(e, Mark::Several) == any_value(e.value, Mark::Several));
    assert(any_entry(e, Mark::Filled) == any_value(e.value, Mark::Filled));
    assert(any_entry(e, Mark::Multiline) == any_value(e.value, Mark::Multiline));
    assert(any_entries(es, 1, Mark::Several) == false);
    assert(any_entries(es, 1, Mark::Filled) == false);
    assert(any_entries(es, 1, Mark::Multiline) == false);
}

/// What one entry shows: an entry, its key first, then its value.
pub open spec fn seen_entry(e: EntryM) -> Seen {
    Seen {
        entry: true,
        key: Some(e.key),
        several: any_value(e.value, Mark::Several),
        filled: any_value(e.value, Mark::Filled),
        multiline: any_value(e.value, Mark::Multiline),
    }
}

/// A verbatim string of two fragments or more holds a line break.
proof fn lemma_verb_join_nl(c: PCtx, from: int, to: int)
    requires
        from + 1 < to,
    ensures
        verb_join(c, from, to).contains('\n'),
{
    let a = verb_join(c, from, to - 1);
    let j = a + seq!['\n'] + crate::parser::frag(c, to - 1);
    assert(verb_join(c, from, to) == j);
    assert(j[a.len() as int] == '\n');
}

/// Reading a value, the parser records only what the value shows.
pub proof fn lemma_pv_marks(c: PCtx, pos: int, s0: Style)
    requires
        toks_bare_valid(c.toks),
    ensures
        p_value(c, pos, s0) matches Ok((m, _, s)) ==> recorded(s, s0, seen_value(m)),
    decreases c.toks.len() - pos, 0int,
{
    if 0 <= pos < c.toks.len() {
        match c.toks[pos] {
            TokM::LBrace => {
                lemma_object_marks(c, pos + 1, s0);
                if let Ok((es, tr, p, s)) = p_object(c, pos + 1, s0) {
                    let m = NodeM { prefix: crate::parser::pref(c, pos), value: ValueM::Object { entries: es, trailing: tr } };
                    assert(seen_value(m) == (Seen { filled: es.len() > 0 || seen_entries(es).filled, ..seen_entries(es) }));
                }
            },
            TokM::LBracket => {
                lemma_array_marks(c, pos + 1, s0);
                if let Ok((xs, tr, p, s)) = p_array(c, pos + 1, s0) {
                    let m = NodeM { prefix: crate::parser::pref(c, pos), value: ValueM::Array { items: xs, trailing: tr } };
                    assert(seen_value(m).entry == seen_items(xs).entry);
                    assert(seen_value(m).several == seen_items(xs).several);
                }
            },
            TokM::Verbatim(_) => {
                let e = verb_end(c, pos + 1);
                if e - pos > 1 {
                    lemma_verb_join_nl(c, pos, e);
                }
            },
            _ => {},
        }
    }
}

/// See [`lemma_pv_marks`]: a braced object's entries.
proof fn lemma_entries_marks(c: PCtx, pos: int, s0: Style)
    requires
        toks_bare_valid(c.toks),
    ensures
        p_obj_entries(c, pos, s0) matches Ok((es, seen, _, s)) ==> recorded(s, s0, seen_entries(es)) && (
        !is_tok(c, pos, TokM::RBrace) ==> es.len() > 0),
    decreases c.toks.len() - pos, 1int,
{
    if 0 <= pos < c.toks.len() && !is_tok(c, pos, TokM::RBrace) {
        if let Ok((key, p1, s1)) = p_key(c, pos, s0) {
            assert(recorded(s1, s0, Seen { key: Some(key), ..seen_none() })) by {
                if let TokM::Bare(t) = c.toks[pos] {
                    assert(is_valid_bare_spec(t));
                }
            }
            if let Ok((p2, s2)) = p_sep(c, p1, s1) {
                if pos < p2 <= c.toks.len() {
                    lemma_pv_marks(c, p2, s2);
                    if let Ok((value, p3, s3)) = p_value(c, p2, s2) {
                        let e = crate::model::EntryM { key, value };
                        assert(recorded(s2, s1, Seen { entry: true, ..seen_none() }));
                        lemma_recorded_trans(s0, s1, s2, Seen { key: Some(key), ..seen_none() }, Seen { entry: true, ..seen_none() });
                        lemma_recorded_trans(
                            s0,
                            s2,
                            s3,
                            seen_then(Seen { key: Some(key), ..seen_none() }, Seen { entry: true, ..seen_none() }),
                            seen_value(value),
                        );
                        let se = seen_entry(e);
                        assert(recorded(s3, s0, se));
                        lemma_seen_entries_one(e);
                        if pos < p3 <= c.toks.len() {
                            if is_tok(c, p3, TokM::Comma) {
                                let s4 = note_commas(s3, true);
                                assert(recorded(s4, s3, seen_none()));
                                lemma_recorded_trans(s0, s3, s4, se, seen_none());
                                assert(seen_then(se, seen_none()) == se);
                                if !is_tok(c, p3 + 1, TokM::RBrace) {
                                    lemma_entries_marks(c, p3 + 1, s4);
                                    if let Ok((rest, sn, q, s5)) = p_obj_entries(c, p3 + 1, s4) {
                                        lemma_recorded_trans(s0, s4, s5, se, seen_entries(rest));
                                        lemma_seen_entries_cons(e, rest);
                                    }
                                }
                            } else if !is_tok(c, p3, TokM::RBrace) {
                                let s4 = note_commas(s3, false);
                                let sv = Seen { several: true, ..seen_none() };
                                assert(recorded(s4, s3, sv));
                                lemma_recorded_trans(s0, s3, s4, se, sv);
                                lemma_entries_marks(c, p3, s4);
                                if let Ok((rest, sn, q, s5)) = p_obj_entries(c, p3, s4) {
                                    lemma_recorded_trans(s0, s4, s5, seen_then(se, sv), seen_entries(rest));
                                    lemma_seen_entries_cons(e, rest);
                                }
                            }
                        }
                    }
                }
            }
        }
    }
}

/// See [`lemma_pv_marks`]: a braced object.
proof fn lemma_object_marks(c: PCtx, pos: int, s0: Style)
    requires
        toks_bare_valid(c.toks),
    ensures
        p_object(c, pos, s0) matches Ok((es, _, _, s)) ==> recorded(s, s0, (Seen { filled: es.len() > 0 || seen_entries(es).filled, ..seen_entries(es) })),
    decreases c.toks.len() - pos, 2int,
{
    lemma_entries_marks(c, pos, s0);
}

/// See [`lemma_pv_marks`]: an array's elements.
proof fn lemma_items_marks(c: PCtx, pos: int, s0: Style)
    requires
        toks_bare_valid(c.toks),
    ensures
        p_arr_items(c, pos, s0) matches Ok((xs, seen, _, s)) ==> recorded(s, s0, seen_items(xs)) && (!is_tok(
            c,
            pos,
            TokM::RBracket,
        ) ==> xs.len() > 0),
    decreases c.toks.len() - pos, 1int,
{
    if 0 <= pos < c.toks.len() && !is_tok(c, pos, TokM::RBracket) {
        lemma_pv_marks(c, pos, s0);
        if let Ok((item, p3, s3)) = p_value(c, pos, s0) {
            let si = seen_value(item);
            lemma_seen_items_one(item);
            if pos < p3 <= c.toks.len() {
                if is_tok(c, p3, TokM::Comma) {
                    let s4 = note_commas(s3, true);
                    assert(recorded(s4, s3, seen_none()));
                    lemma_recorded_trans(s0, s3, s4, si, seen_none());
                    assert(seen_then(si, seen_none()) == si);
                    if !is_tok(c, p3 + 1, TokM::RBracket) {
                        lemma_items_marks(c, p3 + 1, s4);
                        if let Ok((rest, sn, q, s5)) = p_arr_items(c, p3 + 1, s4) {
                            lemma_recorded_trans(s0, s4, s5, si, seen_items(rest));
                            lemma_seen_items_cons(item, rest);
                        }
                    }
                } else if !is_tok(c, p3, TokM::RBracket) {
                    let s4 = note_commas(s3, false);
                    let sv = Seen { several: true, ..seen_none() };
                    assert(recorded(s4, s3, sv));
                    lemma_recorded_trans(s0, s3, s4, si, sv);
                    lemma_items_marks(c, p3, s4);
                    if let Ok((rest, sn, q, s5)) = p_arr_items(c, p3, s4) {
                        lemma_recorded_trans(s0, s4, s5, seen_then(si, sv), seen_items(rest));
                        lemma_seen_items_cons(item, rest);
                    }
                }
            }
        }
    }
}

/// See [`lemma_pv_marks`]: an array.
proof fn lemma_array_marks(c: PCtx, pos: int, s0: Style)
    requires
        toks_bare_valid(c.toks),
    ensures
        p_array(c, pos, s0) matches Ok((xs, _, _, s)) ==> recorded(s, s0, (Seen { filled: xs.len() > 0 || seen_items(xs).filled, ..seen_items(xs) })),
    decreases c.toks.len() - pos, 2int,
{
    lemma_items_marks(c, pos, s0);
}

/// See [`lemma_pv_marks`]: the entries of a brace-less root.
pub proof fn lemma_bare_root_marks(c: PCtx, pos: int, s0: Style)
    requires
        toks_bare_valid(c.toks),
    ensures
        p_bare_root(c, pos, s0) matches Ok((es, _, s)) ==> recorded(s, s0, seen_entries(es)) && (0 <= pos < c.toks.len()
            ==> es.len() > 0),
    decreases c.toks.len() - pos,
{
    if 0 <= pos < c.toks.len() {
        if let Ok((key, p1, s1)) = p_key(c, pos, s0) {
            assert(recorded(s1, s0, Seen { key: Some(key), ..seen_none() })) by {
                if let TokM::Bare(t) = c.toks[pos] {
                    assert(is_valid_bare_spec(t));
                }
            }
            if let Ok((p2, s2)) = p_sep(c, p1, s1) {
                lemma_pv_marks(c, p2, s2);
                if let Ok((value, p3, s3)) = p_value(c, p2, s2) {
                    let e = crate::model::EntryM { key, value };
                    assert(recorded(s2, s1, Seen { entry: true, ..seen_none() }));
                    lemma_recorded_trans(s0, s1, s2, Seen { key: Some(key), ..seen_none() }, Seen { entry: true, ..seen_none() });
                    lemma_recorded_trans(
                        s0,
                        s2,
                        s3,
                        seen_then(Seen { key: Some(key), ..seen_none() }, Seen { entry: true, ..seen_none() }),
                        seen_value(value),
                    );
                    let se = seen_entry(e);
                    assert(recorded(s3, s0, se));
                    lemma_seen_entries_one(e);
                    if pos < p3 <= c.toks.len() {
                        if is_tok(c, p3, TokM::Comma) {
                            let s4 = note_commas(s3, true);
                            assert(recorded(s4, s3, seen_none()));
                            lemma_recorded_trans(s0, s3, s4, se, seen_none());
                            assert(seen_then(se, seen_none()) == se);
                            if p3 + 1 < c.toks.len() {
                                lemma_bare_root_marks(c, p3 + 1, s4);
                                if let Ok((rest, q, s5)) = p_bare_root(c, p3 + 1, s4) {
                                    lemma_recorded_trans(s0, s4, s5, se, seen_entries(rest));
                                    lemma_seen_entries_cons(e, rest);
                                }
                            }
                        } else if p3 < c.toks.len() {
                            let s4 = note_commas(s3, false);
                            let sv = Seen { several: true, ..seen_none() };
                            assert(recorded(s4, s3, sv));
                            lemma_recorded_trans(s0, s3, s4, se, sv);
                            lemma_bare_root_marks(c, p3, s4);
                            if let Ok((rest, q, s5)) = p_bare_root(c, p3, s4) {
                                lemma_recorded_trans(s0, s4, s5, seen_then(se, sv), seen_entries(rest));
                                lemma_seen_entries_cons(e, rest);
                            }
                        }
                    }
                }
            }
        }
    }
}

// ---------------------------------------------------------------------
// The lexer's bare tokens are valid bare keys.

/// Every bare token among `items` is a valid bare key.
pub open spec fn bare_tokens_valid(items: Seq<ItemM>) -> bool {
    forall|k: int| 0 <= k < items.len() ==> (#[trigger] items[k] matches ItemM::Real(TokM::Bare(t), _, _) ==> is_valid_bare_spec(t))
}

proof fn lemma_bare_end_ids(s: Seq<char>, i: int)
    requires
        0 <= i <= s.len(),
    ensures
        forall|k: int| i <= k < bare_end(s, i) ==> is_id_end_spec(#[trigger] s[k]),
    decreases s.len() - i,
{
    if i < s.len() && is_id_end_spec(s[i]) {
        lemma_bare_end_ids(s, i + 1);
    }
}

/// A bare token the lexer makes at `i`, ending at `e`, is a valid bare key.
proof fn lemma_bare_token_valid(s: Seq<char>, i: int)
    requires
        0 <= i < s.len(),
        is_id_start_spec(s[i]),
    ensures
        is_valid_bare_spec(s.subrange(i, bare_end(s, i + 1))),
{
    lemma_bare_end(s, i + 1);
    lemma_bare_end_ids(s, i + 1);
    let t = s.subrange(i, bare_end(s, i + 1));
    assert forall|k: int| 1 <= k < t.len() implies #[trigger] is_id_end_spec(t[k]) by {
        assert(t[k] == s[i + k]);
    }
}

pub proof fn lemma_lex_bares_valid(s: Seq<char>, i: int)
    requires
        0 <= i <= s.len(),
    ensures
        lex_from(s, i) matches Ok(items) ==> bare_tokens_valid(items),
    decreases s.len() - i,
{
    if i < s.len() {
        match lex_step(s, i) {
            Ok((it, j)) => if i < j <= s.len() {
                lemma_lex_bares_valid(s, j);
                if let Ok(rest) = lex_from(s, j) {
                    let items = opt_seq(it) + rest;
                    assert(lex_from(s, i) == Ok::<Seq<ItemM>, crate::model::ErrM>(items));
                    if let Some(ItemM::Real(TokM::Bare(t), _, _)) = it {
                        lemma_bare_token_valid(s, i);
                    }
                    assert forall|k: int| 0 <= k < items.len() implies (#[trigger] items[k] matches ItemM::Real(
                        TokM::Bare(t),
                        _,
                        _,
                    ) ==> is_valid_bare_spec(t)) by {
                        if k >= opt_seq(it).len() {
                            assert(items[k] == rest[k - opt_seq(it).len()]);
                        }
                    }
                }
            },
            Err(_) => {},
        }
    }
}

proof fn lemma_real_toks_bare(items: Seq<ItemM>)
    requires
        bare_tokens_valid(items),
    ensures
        toks_bare_valid(real_toks(items)),
    decreases items.len(),
{
    if items.len() > 0 {
        let init = items.drop_last();
        assert forall|k: int| 0 <= k < init.len() implies (#[trigger] init[k] matches ItemM::Real(TokM::Bare(t), _, _)
            ==> is_valid_bare_spec(t)) by {
            assert(init[k] == items[k]);
        }
        lemma_real_toks_bare(init);
        let last = items[items.len() - 1];
        assert(items.last() == last);
        let rt = real_toks(items);
        assert forall|k: int| 0 <= k < rt.len() implies (#[trigger] rt[k] matches TokM::Bare(t) ==> is_valid_bare_spec(
            t,
        )) by {
            if k < real_toks(init).len() {
                match last {
                    ItemM::Real(_, _, _) => assert(rt[k] == real_toks(init)[k]),
                    _ => {},
                }
            }
        }
    }
}

/// What a document shows of the style.
pub open spec fn seen_doc(d: DocumentM) -> Seen {
    if d.bare_root {
        seen_entries(d.root.value->Object_entries)
    } else {
        seen_value(d.root)
    }
}

/// A parsed document's style latched each field only where the document
/// shows the construct.
pub proof fn lemma_parsed_style_shows(input: Seq<char>)
    ensures
        parse_spec(input) matches Ok(d) ==> recorded(d.style, empty_style(), seen_doc(d)),
{
    let s = strip_bom(input);
    lemma_lex_bares_valid(s, 0);
    if let Ok(items) = lex_spec(s) {
        lemma_real_toks_bare(items);
        let c = ctx_of(s, items);
        let n = c.toks.len() as int;
        if n > 0 {
            match c.toks[0] {
                TokM::LBrace => {
                    lemma_object_marks(c, 1, empty_style());
                    if let Ok((es, tr, p, st)) = p_object(c, 1, empty_style()) {
                        let m = NodeM { prefix: crate::parser::pref(c, 0), value: ValueM::Object { entries: es, trailing: tr } };
                        assert(seen_value(m) == (Seen { filled: es.len() > 0 || seen_entries(es).filled, ..seen_entries(es) }));
                    }
                },
                TokM::LBracket => {
                    lemma_array_marks(c, 1, empty_style());
                    if let Ok((xs, tr, p, st)) = p_array(c, 1, empty_style()) {
                        let m = NodeM { prefix: crate::parser::pref(c, 0), value: ValueM::Array { items: xs, trailing: tr } };
                        assert(seen_value(m).entry == seen_items(xs).entry);
                        assert(seen_value(m).several == seen_items(xs).several);
                    }
                },
                _ => lemma_bare_root_marks(c, 0, empty_style()),
            }
        }
    }
}

// ---------------------------------------------------------------------
// The style law.

/// A mark that implies another on every value implies it on a tree.
proof fn lemma_any_lift(n: NodeM, m1: Mark, m2: Mark)
    requires
        forall|x: NodeM| #[trigger] marks(x, m1) ==> marks(x, m2),
    ensures
        any_value(n, m1) ==> any_value(n, m2),
    decreases n, 0int,
{
    match n.value {
        ValueM::Array { items, .. } => lemma_any_items_lift(items, 0, m1, m2),
        ValueM::Object { entries, .. } => lemma_any_entries_lift(entries, 0, m1, m2),
        _ => {},
    }
}

proof fn lemma_any_items_lift(items: Seq<NodeM>, k: int, m1: Mark, m2: Mark)
    requires
        forall|x: NodeM| #[trigger] marks(x, m1) ==> marks(x, m2),
    ensures
        any_items(items, k, m1) ==> any_items(items, k, m2),
    decreases items, items.len() - k,
{
    if 0 <= k < items.len() {
        lemma_any_lift(items[k], m1, m2);
        lemma_any_items_lift(items, k + 1, m1, m2);
    }
}

proof fn lemma_any_entries_lift(entries: Seq<EntryM>, k: int, m1: Mark, m2: Mark)
    requires
        forall|x: NodeM| #[trigger] marks(x, m1) ==> marks(x, m2),
    ensures
        any_entries(entries, k, m1) ==> any_entries(entries, k, m2),
    decreases entries, entries.len() - k,
{
    if 0 <= k < entries.len() {
        lemma_any_entry_lift(entries[k], m1, m2);
        lemma_any_entries_lift(entries, k + 1, m1, m2);
    }
}

proof fn lemma_any_entry_lift(e: EntryM, m1: Mark, m2: Mark)
    requires
        forall|x: NodeM| #[trigger] marks(x, m1) ==> marks(x, m2),
    ensures
        any_entry(e, m1) ==> any_entry(e, m2),
    decreases e, 0int,
{
    lemma_any_lift(e.value, m1, m2);
}

/// A mark no value has is nowhere in a tree.
proof fn lemma_any_never(n: NodeM, m: Mark)
    requires
        forall|x: NodeM| !#[trigger] marks(x, m),
    ensures
        !any_value(n, m),
    decreases n, 0int,
{
    match n.value {
        ValueM::Array { items, .. } => lemma_any_items_never(items, 0, m),
        ValueM::Object { entries, .. } => lemma_any_entries_never(entries, 0, m),
        _ => {},
    }
}

proof fn lemma_any_items_never(items: Seq<NodeM>, k: int, m: Mark)
    requires
        forall|x: NodeM| !#[trigger] marks(x, m),
    ensures
        !any_items(items, k, m),
    decreases items, items.len() - k,
{
    if 0 <= k < items.len() {
        lemma_any_never(items[k], m);
        lemma_any_items_never(items, k + 1, m);
    }
}

proof fn lemma_any_entries_never(entries: Seq<EntryM>, k: int, m: Mark)
    requires
        forall|x: NodeM| !#[trigger] marks(x, m),
    ensures
        !any_entries(entries, k, m),
    decreases entries, entries.len() - k,
{
    if 0 <= k < entries.len() {
        lemma_any_entry_never(entries[k], m);
        lemma_any_entries_never(entries, k + 1, m);
    }
}

proof fn lemma_any_entry_never(e: EntryM, m: Mark)
    requires
        forall|x: NodeM| !#[trigger] marks(x, m),
    ensures
        !any_entry(e, m),
    decreases e, 0int,
{
    lemma_any_never(e.value, m);
}

/// Two styles write alike: every effective choice is the same.
pub open spec fn same_effective(a: Style, b: Style) -> bool {
    &&& a.eff_separator() == b.eff_separator()
    &&& a.eff_value_quote() == b.eff_value_quote()
    &&& a.eff_key_style() == b.eff_key_style()
    &&& a.eff_commas() == b.eff_commas()
    &&& a.eff_trailing_comma() == b.eff_trailing_comma()
    &&& a.eff_indent() == b.eff_indent()
    &&& a.eff_verbatim_strings() == b.eff_verbatim_strings()
}

/// Some value of the document has the mark.
pub open spec fn any_doc(d: DocumentM, m: Mark) -> bool {
    if d.bare_root {
        any_entries(d.root.value->Object_entries, 0, m)
    } else {
        any_value(d.root, m)
    }
}

/// The writer's choices two styles share: all but the value quote, with
/// trailing commas compared only where commas are written.
pub open spec fn writes_alike(a: Style, b: Style) -> bool {
    &&& a.eff_separator() == b.eff_separator()
    &&& a.eff_key_style() == b.eff_key_style()
    &&& a.eff_commas() == b.eff_commas()
    &&& w_comma(a, true) == w_comma(b, true)
    &&& a.eff_indent() == b.eff_indent()
    &&& a.eff_verbatim_strings() == b.eff_verbatim_strings()
}

/// The style the parser records reading a parsed document's written text
/// (see [`ob_doc`]) makes the writer's choices the document's own style
/// makes, but for the value quote where no string value is written quoted
/// (the text then shows no quote, and the default is read).
pub proof fn lemma_restyle_choices(input: Seq<char>, d: DocumentM)
    requires
        parse_spec(input) == Ok::<DocumentM, crate::model::ErrM>(d),
    ensures
        writes_alike(ob_doc(d), d.style),
        ob_doc(d).eff_value_quote() == d.style.eff_value_quote() || (!any_doc(d, Mark::Quoted(d.style))
            && ob_doc(d).eff_value_quote() == Quote::Double),
        d.style.eff_commas() ==> ob_doc(d).eff_trailing_comma() == d.style.eff_trailing_comma(),
        !d.style.eff_commas() ==> !ob_doc(d).eff_trailing_comma(),
{
    let st = d.style;
    let es = empty_style();
    lemma_parsed_style_shows(input);
    crate::parser::law_parse_leaves_indent_and_bare_roots_are_objects(input);
    let w = seen_doc(d);
    assert(recorded(st, es, w));
    let r = ob_doc(d);
    if st.eff_verbatim_strings() {
        assert forall|x: NodeM| #[trigger] marks(x, Mark::Multiline) implies marks(x, Mark::Fragmented(st)) by {}
    } else {
        assert forall|x: NodeM| !#[trigger] marks(x, Mark::Fragmented(st)) by {}
    }
    if d.bare_root {
        let entries = d.root.value->Object_entries;
        lemma_ob_entries(entries, 0, st, es);
        if st.eff_verbatim_strings() {
            lemma_any_entries_lift(entries, 0, Mark::Multiline, Mark::Fragmented(st));
        } else {
            lemma_any_entries_never(entries, 0, Mark::Fragmented(st));
        }
    } else {
        lemma_ob_value(d.root, st, es);
        if st.eff_verbatim_strings() {
            lemma_any_lift(d.root, Mark::Multiline, Mark::Fragmented(st));
        } else {
            lemma_any_never(d.root, Mark::Fragmented(st));
        }
    }
    assert(r.indent == es.indent);
    if let Some(key) = w.key {
        assert(key_fits(key, st.key_style->0));
        assert(key_kind(key, st) == st.eff_key_style());
    }
    assert(r.eff_separator() == st.eff_separator());
    assert(r.eff_key_style() == st.eff_key_style());
    assert(r.eff_commas() == st.eff_commas());
    assert(r.eff_indent() == st.eff_indent());
    assert(r.eff_verbatim_strings() == st.eff_verbatim_strings());
}

/// The style the parser records reading a parsed document's written text
/// (see [`ob_doc`]) makes the same choices as the document's own, unless
/// that asks for a trailing comma without commas, or for single-quoted
/// values while no string value is written quoted.
pub proof fn lemma_restyle(input: Seq<char>, d: DocumentM)
    requires
        parse_spec(input) == Ok::<DocumentM, crate::model::ErrM>(d),
        !(d.style.commas == Some(false) && d.style.trailing_comma == Some(true)),
        d.style.value_quote == Some(Quote::Single) ==> any_doc(d, Mark::Quoted(d.style)),
    ensures
        same_effective(ob_doc(d), d.style),
{
    lemma_restyle_choices(input, d);
}

} // verus!
