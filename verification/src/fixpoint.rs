//! Writing what was read back from the writer's text gives the same text.
//!
//! A document read back from its written text has the same values, each
//! run of comment lines in the form [`crate::roundtrip::ret`] gives it,
//! and (see [`crate::restyle`]) a style that makes the same choices. The
//! writer reads a style only through its effective choices and re-indents
//! each comment line after trimming it, so it writes the read-back document
//! exactly as it wrote the first one.

use vstd::prelude::*;
use crate::model::{DocumentM, EntryM, NodeM, ValueM};
use crate::parser::{law_parsed_document_form, parse_spec};
use crate::restyle::{
    any_doc, any_entries, any_entry, any_items, any_value, key_plain, lemma_restyle, lemma_restyle_choices, marks,
    same_effective, writes_alike, Mark,
};
use crate::roundtrip::{
    bom_key_first, doc_comments, entry_lex_ok, law_write_then_parse_keeps_values_and_comments, lemma_cl_trim_empty, lemma_hazard_free_ok, lemma_ret_lines, lemma_w_prefix_cl,
    lemma_write_then_parse, lex_ok, no_write_hazard, reads_as, ret, same_shape,
};
use crate::style::{Quote, Style};
use crate::trivia::comment_lines;
use crate::writer::{
    ind, trim, w_break, w_comma, w_document_raw, w_lines_from, w_entries_from, w_items_from, w_key, w_prefix, w_sep, w_soft,
    w_string, w_value, w_verbatim_from, write_spec,
};

verus! {

/// Nothing in `n` is written in the value quote: no string value is
/// written quoted, and no key is written in that quote.
pub open spec fn quiet(n: NodeM, st: Style) -> bool {
    !any_value(n, Mark::Quoted(st)) && !any_value(n, Mark::KeyQuoted(st))
}

/// A run of comment lines read back breaks a line as the run did.
proof fn lemma_break_ret(q: Seq<char>, d: int, a: Style, b: Style)
    requires
        comment_lines(q),
        ind(a, d) == ind(b, d),
    ensures
        w_break(ret(q), d, a) == w_break(q, d, b),
        w_soft(ret(q), d, a) == w_soft(q, d, b),
        (trim(ret(q)).len() == 0) == (trim(q).len() == 0),
{
    lemma_ret_lines(q, d, a, b);
    lemma_w_prefix_cl(q, d, b);
    lemma_w_prefix_cl(ret(q), d, a);
    if q.len() > 0 {
        if trim(q).len() == 0 {
            lemma_cl_trim_empty(q);
        }
        if trim(ret(q)).len() == 0 {
            lemma_cl_trim_empty(ret(q));
        }
    } else {
        assert(ret(q) == Seq::<char>::empty());
    }
}

/// The verbatim lines of a string read the style only for indentation.
proof fn lemma_verb_same(t: Seq<char>, i: int, start: int, first: bool, d: int, a: Style, b: Style)
    requires
        ind(a, d) == ind(b, d),
    ensures
        w_verbatim_from(t, i, start, first, d, a) == w_verbatim_from(t, i, start, first, d, b),
    decreases t.len() - i,
{
    if 0 <= i < t.len() {
        if t[i] == '\n' {
            lemma_verb_same(t, i + 1, i + 1, false, d, a, b);
        } else {
            lemma_verb_same(t, i + 1, start, first, d, a, b);
        }
    }
}

/// A value read back from the writer's text is written as the value was.
proof fn lemma_w_value_fix(m: NodeM, n: NodeM, dep: int, a: Style, b: Style)
    requires
        writes_alike(a, b),
        a.eff_value_quote() == b.eff_value_quote() || quiet(n, b),
        reads_as(m.value, n.value),
        lex_ok(n, b),
    ensures
        w_value(m, dep, a) == w_value(n, dep, b),
    decreases n, 0int,
{
    assert(ind(a, dep) == ind(b, dep));
    match n.value {
        ValueM::Str(t) => {
            assert(m.value == n.value);
            lemma_verb_same(t, 0, 0, true, dep, a, b);
            if a.eff_value_quote() != b.eff_value_quote() {
                assert(!marks(n, Mark::Quoted(b)));
            }
        },
        ValueM::Array { items: y, trailing: ty } => {
            let x = m.value->Array_items;
            lemma_break_ret(ty, dep, a, b);
            if a.eff_value_quote() != b.eff_value_quote() {
                assert(!any_items(y, 0, Mark::Quoted(b)) && !any_items(y, 0, Mark::KeyQuoted(b)));
            }
            lemma_w_items_fix(x, y, 0, dep, a, b);
        },
        ValueM::Object { entries: y, trailing: ty } => {
            let x = m.value->Object_entries;
            lemma_break_ret(ty, dep, a, b);
            if a.eff_value_quote() != b.eff_value_quote() {
                assert(!marks(n, Mark::KeyQuoted(b)));
                assert forall|j: int| 0 <= j < y.len() implies key_plain(#[trigger] y[j].key, b) by {}
                assert(!any_entries(y, 0, Mark::Quoted(b)) && !any_entries(y, 0, Mark::KeyQuoted(b)));
            }
            lemma_w_entries_fix(x, y, 0, dep, a, b);
        },
        _ => {
            assert(m.value == n.value);
        },
    }
}

proof fn lemma_w_items_fix(x: Seq<NodeM>, y: Seq<NodeM>, k: int, dep: int, a: Style, b: Style)
    requires
        writes_alike(a, b),
        a.eff_value_quote() == b.eff_value_quote() || (!any_items(y, k, Mark::Quoted(b)) && !any_items(
            y,
            k,
            Mark::KeyQuoted(b),
        )),
        x.len() == y.len(),
        0 <= k <= y.len(),
        forall|j: int|
            0 <= j < x.len() ==> (#[trigger] x[j]).prefix == ret(y[j].prefix) && reads_as(x[j].value, y[j].value),
        forall|j: int| 0 <= j < y.len() ==> lex_ok(#[trigger] y[j], b),
    ensures
        w_items_from(x, k, dep, a) == w_items_from(y, k, dep, b),
    decreases y, y.len() - k,
{
    if k < y.len() {
        assert(x[k].prefix == ret(y[k].prefix));
        assert(lex_ok(y[k], b));
        assert(ind(a, dep + 1) == ind(b, dep + 1));
        lemma_break_ret(y[k].prefix, dep + 1, a, b);
        lemma_w_value_fix(x[k], y[k], dep + 1, a, b);
        lemma_w_items_fix(x, y, k + 1, dep, a, b);
        assert(w_comma(a, k + 1 == x.len()) == w_comma(b, k + 1 == y.len()));
    }
}

proof fn lemma_w_entry_fix(e: EntryM, f: EntryM, is_last: bool, dep: int, a: Style, b: Style)
    requires
        writes_alike(a, b),
        a.eff_value_quote() == b.eff_value_quote() || quiet(f.value, b),
        e.value.prefix == ret(f.value.prefix),
        reads_as(e.value.value, f.value.value),
        entry_lex_ok(f, is_last, b),
    ensures
        w_soft(e.value.prefix, dep + 1, a) == w_soft(f.value.prefix, dep + 1, b),
        w_value(e.value, dep + 1, a) == w_value(f.value, dep + 1, b),
    decreases f, 0int,
{
    assert(ind(a, dep + 1) == ind(b, dep + 1));
    lemma_break_ret(f.value.prefix, dep + 1, a, b);
    lemma_w_value_fix(e.value, f.value, dep + 1, a, b);
}

proof fn lemma_w_entries_fix(x: Seq<EntryM>, y: Seq<EntryM>, k: int, dep: int, a: Style, b: Style)
    requires
        writes_alike(a, b),
        a.eff_value_quote() == b.eff_value_quote() || ((forall|j: int| 0 <= j < y.len() ==> key_plain(#[trigger] y[j].key, b))
            && !any_entries(y, k, Mark::Quoted(b)) && !any_entries(y, k, Mark::KeyQuoted(b))),
        x.len() == y.len(),
        0 <= k <= y.len(),
        forall|j: int|
            0 <= j < x.len() ==> (#[trigger] x[j]).key.prefix == ret(y[j].key.prefix) && x[j].key.value
                == y[j].key.value && x[j].value.prefix == ret(y[j].value.prefix) && reads_as(
                x[j].value.value,
                y[j].value.value,
            ),
        forall|j: int| 0 <= j < y.len() ==> entry_lex_ok(#[trigger] y[j], j + 1 == y.len(), b),
    ensures
        w_entries_from(x, k, dep, a) == w_entries_from(y, k, dep, b),
    decreases y, y.len() - k,
{
    if k < y.len() {
        let e = x[k];
        let f = y[k];
        assert(e.key.prefix == ret(f.key.prefix));
        assert(entry_lex_ok(f, k + 1 == y.len(), b));
        assert(ind(a, dep + 1) == ind(b, dep + 1));
        lemma_break_ret(f.key.prefix, dep + 1, a, b);
        if a.eff_value_quote() != b.eff_value_quote() {
            assert(key_plain(f.key, b));
            assert(any_entry(f, Mark::Quoted(b)) == any_value(f.value, Mark::Quoted(b)));
            assert(any_entry(f, Mark::KeyQuoted(b)) == any_value(f.value, Mark::KeyQuoted(b)));
        }
        lemma_w_entry_fix(e, f, k + 1 == y.len(), dep, a, b);
        lemma_w_entries_fix(x, y, k + 1, dep, a, b);
        assert(w_key(e.key, a) == w_key(f.key, b));
        assert(w_sep(a) == w_sep(b));
        assert(w_comma(a, k + 1 == x.len()) == w_comma(b, k + 1 == y.len()));
    }
}

/// The writer writes a document read back from its text as it wrote the
/// document.
proof fn lemma_w_doc_fix(d: DocumentM, d2: DocumentM)
    requires
        writes_alike(d2.style, d.style),
        d2.style.eff_value_quote() == d.style.eff_value_quote() || quiet(d.root, d.style),
        lex_ok(d.root, d.style),
        comment_lines(d.suffix),
        d2.bare_root == d.bare_root,
        d.bare_root ==> d.root.value is Object,
        reads_as(d2.root.value, d.root.value),
        d2.suffix == ret(d.suffix),
        if d.bare_root {
            d2.root.prefix == Seq::<char>::empty()
        } else {
            d2.root.prefix == ret(d.root.prefix)
        },
    ensures
        write_spec(d2) == write_spec(d),
{
    let a = d2.style;
    let b = d.style;
    assert(ind(a, 0) == ind(b, 0));
    lemma_break_ret(d.suffix, 0, a, b);
    if d.bare_root {
        let y = d.root.value->Object_entries;
        let x = d2.root.value->Object_entries;
        if a.eff_value_quote() != b.eff_value_quote() {
            assert(!marks(d.root, Mark::KeyQuoted(b)));
            assert forall|j: int| 0 <= j < y.len() implies key_plain(#[trigger] y[j].key, b) by {}
            assert(!any_entries(y, 0, Mark::Quoted(b)) && !any_entries(y, 0, Mark::KeyQuoted(b)));
        }
        lemma_w_entries_fix(x, y, 0, -1, a, b);
        assert(w_prefix(Seq::<char>::empty(), 0, a) == w_prefix(Seq::<char>::empty(), 0, b));
    } else {
        lemma_break_ret(d.root.prefix, 0, a, b);
        lemma_w_value_fix(d2.root, d.root, 0, a, b);
    }
    assert(w_document_raw(d2) == w_document_raw(d));
}

/// The round trip of a parsed document through the writer. Writing it and
/// parsing the text again gives a document with the same values, the same
/// kind of root and the same comments in the same order (each without the
/// blanks that ended its line); reading the text records the style the
/// writer wrote with, choice by choice; and writing that document gives
/// the same text again -- the output is a fixpoint from the first write
/// on. The exceptions: a tree holding one of the shapes [`no_write_hazard`]
/// names (its values change or its text does not parse), a style asking
/// for a trailing comma but no commas (the text then shows no comma), and
/// one asking for single-quoted string values while every string value is
/// written as verbatim fragments (the text then shows no quote).
#[verifier::rlimit(40)]
#[verifier::spinoff_prover]
pub proof fn law_write_then_parse_round_trip(input: Seq<char>, d: DocumentM)
    requires
        parse_spec(input) == Ok::<DocumentM, crate::model::ErrM>(d),
        no_write_hazard(d.root, d.style),
        !bom_key_first(d),
        !(d.style.commas == Some(false) && d.style.trailing_comma == Some(true)),
        d.style.value_quote == Some(Quote::Single) ==> any_doc(d, Mark::Quoted(d.style)),
    ensures
        parse_spec(write_spec(d)) matches Ok(d2) && d2.bare_root == d.bare_root && same_shape(
            d2.root.value,
            d.root.value,
        ) && doc_comments(d2) == doc_comments(d) && same_effective(d2.style, d.style) && write_spec(d2)
            == write_spec(d),
{
    law_write_then_parse_keeps_values_and_comments(input, d);
    law_parsed_document_form(input);
    crate::parser::law_parse_leaves_indent_and_bare_roots_are_objects(input);
    lemma_hazard_free_ok(d.root, d.style);
    lemma_write_then_parse(d);
    lemma_restyle(input, d);
    let d2 = parse_spec(write_spec(d))->Ok_0;
    lemma_w_doc_fix(d, d2);
}

/// Writing a parsed document, parsing the text and writing again gives
/// the same text -- the writer's output is a fixpoint from the first write
/// on -- and the document read back has the same values, the same kind of
/// root and the same comments in the same order. The exceptions: a tree
/// holding one of the shapes [`no_write_hazard`] names, a brace-less root
/// whose text starts with a byte-order mark ([`bom_key_first`]), and a
/// style asking for single-quoted string values when no string value is
/// written quoted but some key is written in the value quote (the text
/// read back shows no quoted value, so the default double quote is read,
/// and the key is then written in it).
#[verifier::rlimit(40)]
#[verifier::spinoff_prover]
pub proof fn law_written_text_is_a_fixpoint(input: Seq<char>, d: DocumentM)
    requires
        parse_spec(input) == Ok::<DocumentM, crate::model::ErrM>(d),
        no_write_hazard(d.root, d.style),
        !bom_key_first(d),
        !(d.style.value_quote == Some(Quote::Single) && !any_doc(d, Mark::Quoted(d.style)) && any_value(
            d.root,
            Mark::KeyQuoted(d.style),
        )),
    ensures
        parse_spec(write_spec(d)) matches Ok(d2) && d2.bare_root == d.bare_root && same_shape(
            d2.root.value,
            d.root.value,
        ) && doc_comments(d2) == doc_comments(d) && write_spec(d2) == write_spec(d),
{
    law_write_then_parse_keeps_values_and_comments(input, d);
    law_parsed_document_form(input);
    crate::parser::law_parse_leaves_indent_and_bare_roots_are_objects(input);
    lemma_hazard_free_ok(d.root, d.style);
    lemma_write_then_parse(d);
    lemma_restyle_choices(input, d);
    let d2 = parse_spec(write_spec(d))->Ok_0;
    let st = d.style;
    if d2.style.eff_value_quote() != st.eff_value_quote() {
        assert(st.value_quote == Some(Quote::Single));
        assert(!any_value(d.root, Mark::Quoted(st))) by {
            if d.bare_root {
                assert(!marks(d.root, Mark::Quoted(st)));
            }
        }
    }
    lemma_w_doc_fix(d, d2);
}

// ---------------------------------------------------------------------
// The writer reads a style only through its effective choices.

proof fn lemma_lines_same(p: Seq<char>, i: int, start: int, d: int, a: Style, b: Style)
    requires
        ind(a, d) == ind(b, d),
    ensures
        w_lines_from(p, i, start, d, a) == w_lines_from(p, i, start, d, b),
    decreases p.len() - i,
{
    if 0 <= i < p.len() {
        if p[i] == '\n' {
            lemma_lines_same(p, i + 1, i + 1, d, a, b);
        } else {
            lemma_lines_same(p, i + 1, start, d, a, b);
        }
    }
}

proof fn lemma_breaks_same(p: Seq<char>, d: int, a: Style, b: Style)
    requires
        ind(a, d) == ind(b, d),
    ensures
        w_break(p, d, a) == w_break(p, d, b),
        w_soft(p, d, a) == w_soft(p, d, b),
{
    lemma_lines_same(p, 0, 0, d, a, b);
}

proof fn lemma_w_value_same(n: NodeM, dep: int, a: Style, b: Style)
    requires
        same_effective(a, b),
    ensures
        w_value(n, dep, a) == w_value(n, dep, b),
    decreases n, 0int,
{
    assert(ind(a, dep) == ind(b, dep));
    match n.value {
        ValueM::Str(t) => lemma_verb_same(t, 0, 0, true, dep, a, b),
        ValueM::Array { items, trailing } => {
            lemma_breaks_same(trailing, dep, a, b);
            lemma_w_items_same(items, 0, dep, a, b);
        },
        ValueM::Object { entries, trailing } => {
            lemma_breaks_same(trailing, dep, a, b);
            lemma_w_entries_same(entries, 0, dep, a, b);
        },
        _ => {},
    }
}

proof fn lemma_w_items_same(items: Seq<NodeM>, k: int, dep: int, a: Style, b: Style)
    requires
        same_effective(a, b),
    ensures
        w_items_from(items, k, dep, a) == w_items_from(items, k, dep, b),
    decreases items, items.len() - k,
{
    if 0 <= k < items.len() {
        assert(ind(a, dep + 1) == ind(b, dep + 1));
        lemma_breaks_same(items[k].prefix, dep + 1, a, b);
        lemma_w_value_same(items[k], dep + 1, a, b);
        lemma_w_items_same(items, k + 1, dep, a, b);
    }
}

proof fn lemma_w_entry_same(e: EntryM, dep: int, a: Style, b: Style)
    requires
        same_effective(a, b),
    ensures
        w_value(e.value, dep + 1, a) == w_value(e.value, dep + 1, b),
    decreases e, 0int,
{
    lemma_w_value_same(e.value, dep + 1, a, b);
}

proof fn lemma_w_entries_same(entries: Seq<EntryM>, k: int, dep: int, a: Style, b: Style)
    requires
        same_effective(a, b),
    ensures
        w_entries_from(entries, k, dep, a) == w_entries_from(entries, k, dep, b),
    decreases entries, entries.len() - k,
{
    if 0 <= k < entries.len() {
        let e = entries[k];
        assert(ind(a, dep + 1) == ind(b, dep + 1));
        lemma_breaks_same(e.key.prefix, dep + 1, a, b);
        lemma_breaks_same(e.value.prefix, dep + 1, a, b);
        lemma_w_entry_same(e, dep, a, b);
        lemma_w_entries_same(entries, k + 1, dep, a, b);
        assert(w_key(e.key, a) == w_key(e.key, b));
    }
}

/// The writer reads a style only through its effective choices: two styles
/// that make the same choices write any document alike.
pub proof fn law_writer_reads_only_effective_style(d: DocumentM, st: Style)
    requires
        same_effective(st, d.style),
    ensures
        write_spec(DocumentM { style: st, ..d }) == write_spec(d),
{
    let d2 = DocumentM { style: st, ..d };
    let a = st;
    let b = d.style;
    assert(ind(a, 0) == ind(b, 0));
    lemma_breaks_same(d.suffix, 0, a, b);
    lemma_breaks_same(d.root.prefix, 0, a, b);
    lemma_breaks_same(Seq::<char>::empty(), 0, a, b);
    lemma_w_value_same(d.root, 0, a, b);
    if let ValueM::Object { entries, .. } = d.root.value {
        lemma_w_entries_same(entries, 0, -1, a, b);
    }
    assert(w_document_raw(d2) == w_document_raw(d));
}

} // verus!
