//! Renders a [`Document`] back to CSON text according to its [`Style`].
//!
//! Layout is *never* read back from a node: every structural newline,
//! indent, comma and bracket is produced uniformly from `Style`,
//! regardless of how unevenly the source file was formatted. Only
//! comments and blank lines travel through `Node::prefix`.

use vstd::prelude::*;
use crate::lexer::{is_id_end, is_id_end_spec, is_id_start, is_id_start_spec};
use crate::model::{DocumentM, EntryM, NodeM, ValueM};
use crate::style::{render_spec, KeyStyle, Quote, Separator, Style};
use crate::text::{chars_of, is_ws, is_ws_spec, push_all, string_of};
use crate::{CsonStr, Document, Entry, Node, Value};

verus! {

broadcast use crate::group_view;

// ---------------------------------------------------------------------
// Specification of the output text.

/// `depth` levels of the style's indentation.
pub open spec fn ind(st: Style, depth: int) -> Seq<char> {
    render_spec(st.eff_indent(), depth as nat)
}

/// First index `>= i` of `s` that is not whitespace (or `s.len()`).
pub open spec fn ws_skip(s: Seq<char>, i: int) -> int
    decreases s.len() - i,
{
    if 0 <= i < s.len() && is_ws_spec(s[i]) {
        ws_skip(s, i + 1)
    } else {
        i
    }
}

/// One past the last index `< j` of `s` that is not whitespace, but no
/// lower than `lo`.
pub open spec fn ws_back(s: Seq<char>, lo: int, j: int) -> int
    decreases j - lo,
{
    if lo < j && j <= s.len() && is_ws_spec(s[j - 1]) {
        ws_back(s, lo, j - 1)
    } else {
        j
    }
}

/// `str::trim`: `s` without leading or trailing whitespace.
pub open spec fn trim(s: Seq<char>) -> Seq<char> {
    let a = ws_skip(s, 0);
    s.subrange(a, ws_back(s, a, s.len() as int))
}

/// One line of a prefix, re-indented: a line break, then (unless the
/// line is blank) the indentation and the trimmed line.
pub open spec fn w_line(line: Seq<char>, d: int, st: Style) -> Seq<char> {
    let t = trim(line);
    seq!['\n'] + if t.len() > 0 { ind(st, d) + t } else { Seq::empty() }
}

/// The lines of `p[start..]` (as `str::lines` splits them; the scan is at
/// `i`), each written with [`w_line`].
pub open spec fn w_lines_from(p: Seq<char>, i: int, start: int, d: int, st: Style) -> Seq<char>
    decreases p.len() - i,
{
    if i < 0 || i >= p.len() {
        if 0 <= start < p.len() {
            w_line(p.subrange(start, p.len() as int), d, st)
        } else {
            Seq::empty()
        }
    } else if p[i] == '\n' {
        w_line(p.subrange(start, i), d, st) + w_lines_from(p, i + 1, i + 1, d, st)
    } else {
        w_lines_from(p, i + 1, start, d, st)
    }
}

/// The comment/blank-line text of a prefix, re-indented at depth `d`.
pub open spec fn w_prefix(p: Seq<char>, d: int, st: Style) -> Seq<char> {
    w_lines_from(p, 0, 0, d, st)
}

/// A prefix, then a fresh indented line.
pub open spec fn w_break(p: Seq<char>, d: int, st: Style) -> Seq<char> {
    w_prefix(p, d, st) + seq!['\n'] + ind(st, d)
}

/// Between a separator and its value: one space, or (when there is a
/// comment) the prefix and a fresh indented line.
pub open spec fn w_soft(p: Seq<char>, d: int, st: Style) -> Seq<char> {
    if p.len() == 0 {
        seq![' ']
    } else {
        w_prefix(p, d, st) + seq!['\n'] + ind(st, d)
    }
}

pub open spec fn quote_char(q: Quote) -> char {
    match q {
        Quote::Double => '"',
        Quote::Single => '\'',
    }
}

pub open spec fn hex_lower(v: int) -> char {
    if v < 10 {
        ('0' as int + v) as char
    } else {
        ('a' as int + v - 10) as char
    }
}

/// How a character is written inside a string quoted with `q`.
pub open spec fn esc_char(c: char, q: char) -> Seq<char> {
    if c == '\\' {
        seq!['\\', '\\']
    } else if c == '\n' {
        seq!['\\', 'n']
    } else if c == '\r' {
        seq!['\\', 'r']
    } else if c == '\t' {
        seq!['\\', 't']
    } else if c == '\u{8}' {
        seq!['\\', 'b']
    } else if c == '\u{c}' {
        seq!['\\', 'f']
    } else if c == q {
        seq!['\\', c]
    } else if (c as u32) < 0x20 {
        seq!['\\', 'u', '0', '0', hex_lower(((c as u32) / 16) as int), hex_lower(((c as u32) % 16) as int)]
    } else {
        seq![c]
    }
}

/// The escaped body of `t` quoted with `q`.
pub open spec fn esc(t: Seq<char>, q: char) -> Seq<char>
    decreases t.len(),
{
    if t.len() == 0 {
        Seq::empty()
    } else {
        esc(t.drop_last(), q) + esc_char(t.last(), q)
    }
}

/// `t` as a quoted string literal.
pub open spec fn w_quoted(t: Seq<char>, q: Quote) -> Seq<char> {
    seq![quote_char(q)] + esc(t, quote_char(q)) + seq![quote_char(q)]
}

/// `t` is usable as a bare key.
pub open spec fn is_valid_bare_spec(t: Seq<char>) -> bool {
    &&& t.len() > 0
    &&& is_id_start_spec(t[0])
    &&& forall|i: int| 1 <= i < t.len() ==> #[trigger] is_id_end_spec(t[i])
}

/// The `|` lines of a verbatim string `t` (scan at `i`, current line from
/// `start`), the first one not preceded by a line break.
pub open spec fn w_verbatim_from(t: Seq<char>, i: int, start: int, first: bool, d: int, st: Style) -> Seq<char>
    decreases t.len() - i,
{
    let lead = if first { Seq::empty() } else { seq!['\n'] + ind(st, d) };
    if i < 0 || i >= t.len() {
        lead + seq!['|'] + t.subrange(start, t.len() as int)
    } else if t[i] == '\n' {
        lead + seq!['|'] + t.subrange(start, i) + w_verbatim_from(t, i + 1, i + 1, false, d, st)
    } else {
        w_verbatim_from(t, i + 1, start, first, d, st)
    }
}

/// A string value.
pub open spec fn w_string(t: Seq<char>, d: int, st: Style) -> Seq<char> {
    if st.eff_verbatim_strings() && t.contains('\n') {
        w_verbatim_from(t, 0, 0, true, d, st)
    } else {
        w_quoted(t, st.eff_value_quote())
    }
}

/// An object key.
pub open spec fn w_key(key: NodeM, st: Style) -> Seq<char> {
    let text = match key.value {
        ValueM::Str(s) => s,
        _ => Seq::empty(),
    };
    match st.eff_key_style() {
        KeyStyle::Bare => if is_valid_bare_spec(text) {
            text
        } else {
            w_quoted(text, st.eff_value_quote())
        },
        KeyStyle::Double => w_quoted(text, Quote::Double),
        KeyStyle::Single => w_quoted(text, Quote::Single),
    }
}

/// The key/value separator (the space after it is [`w_soft`]'s).
pub open spec fn w_sep(st: Style) -> Seq<char> {
    match st.eff_separator() {
        Separator::Colon => seq![':'],
        Separator::Equals => seq![' ', '='],
    }
}

/// The comma after an element, if the style wants one there.
pub open spec fn w_comma(st: Style, is_last: bool) -> Seq<char> {
    if st.eff_commas() && (!is_last || st.eff_trailing_comma()) {
        seq![',']
    } else {
        Seq::empty()
    }
}

/// A value at depth `d`.
pub open spec fn w_value(n: NodeM, d: int, st: Style) -> Seq<char>
    decreases n, 0int,
{
    match n.value {
        ValueM::Null => "null"@,
        ValueM::Bool(b) => if b { "true"@ } else { "false"@ },
        ValueM::Number(raw) => raw,
        ValueM::Str(s) => w_string(s, d, st),
        ValueM::Array { items, trailing } => seq!['['] + if items.len() == 0 && trim(trailing).len() == 0 {
            seq![']']
        } else {
            w_items_from(items, 0, d, st) + w_break(trailing, d, st) + seq![']']
        },
        ValueM::Object { entries, trailing } => seq!['{'] + if entries.len() == 0 && trim(trailing).len() == 0 {
            seq!['}']
        } else {
            w_entries_from(entries, 0, d, st) + w_break(trailing, d, st) + seq!['}']
        },
    }
}

/// Array elements `i..` of a container at depth `d`.
pub open spec fn w_items_from(items: Seq<NodeM>, i: int, d: int, st: Style) -> Seq<char>
    decreases items, items.len() - i,
{
    if i < 0 || i >= items.len() {
        Seq::empty()
    } else {
        w_break(items[i].prefix, d + 1, st) + w_value(items[i], d + 1, st) + w_comma(st, i + 1 == items.len())
            + w_items_from(items, i + 1, d, st)
    }
}

/// Object entries `i..` of a container at depth `d`.
pub open spec fn w_entries_from(entries: Seq<EntryM>, i: int, d: int, st: Style) -> Seq<char>
    decreases entries, entries.len() - i,
{
    if i < 0 || i >= entries.len() {
        Seq::empty()
    } else {
        let e = entries[i];
        w_break(e.key.prefix, d + 1, st) + w_key(e.key, st) + w_sep(st) + w_soft(e.value.prefix, d + 1, st)
            + w_value(e.value, d + 1, st) + w_comma(st, i + 1 == entries.len())
            + w_entries_from(entries, i + 1, d, st)
    }
}

/// The document text before surrounding line breaks are normalized. A
/// brace-less root's entries stand at depth 0, without indentation.
pub open spec fn w_document_raw(doc: DocumentM) -> Seq<char> {
    let st = doc.style;
    let body = if doc.bare_root {
        match doc.root.value {
            ValueM::Object { entries, .. } => w_entries_from(entries, 0, -1, st) + w_break(Seq::empty(), 0, st),
            _ => Seq::empty(),
        }
    } else {
        w_break(doc.root.prefix, 0, st) + w_value(doc.root, 0, st)
    };
    body + w_break(doc.suffix, 0, st)
}

/// First index `>= i` of `s` that is not `'\n'`.
pub open spec fn nl_skip(s: Seq<char>, i: int) -> int
    decreases s.len() - i,
{
    if 0 <= i < s.len() && s[i] == '\n' {
        nl_skip(s, i + 1)
    } else {
        i
    }
}

/// One past the last index `< j` of `s` that is not `'\n'`, no lower than `lo`.
pub open spec fn nl_back(s: Seq<char>, lo: int, j: int) -> int
    decreases j - lo,
{
    if lo < j && j <= s.len() && s[j - 1] == '\n' {
        nl_back(s, lo, j - 1)
    } else {
        j
    }
}

/// The text of a document: the raw rendering without leading or
/// trailing line breaks, then exactly one final line break.
pub open spec fn write_spec(doc: DocumentM) -> Seq<char> {
    let raw = w_document_raw(doc);
    let a = nl_skip(raw, 0);
    raw.subrange(a, nl_back(raw, a, raw.len() as int)) + seq!['\n']
}

/// A node can be written at depth `d`: every object key is a string, and
/// the nesting below it stays within `usize` depth.
pub open spec fn writable(n: NodeM, d: int) -> bool
    decreases n, 0int,
{
    &&& 0 <= d
    &&& d + 1 < usize::MAX
    &&& match n.value {
        ValueM::Array { items, .. } => writable_items(items, 0, d + 1),
        ValueM::Object { entries, .. } => writable_entries(entries, 0, d + 1),
        _ => true,
    }
}

pub open spec fn writable_items(items: Seq<NodeM>, i: int, d: int) -> bool
    decreases items, items.len() - i,
{
    i < 0 || i >= items.len() || (writable(items[i], d) && writable_items(items, i + 1, d))
}

pub open spec fn writable_entries(entries: Seq<EntryM>, i: int, d: int) -> bool
    decreases entries, entries.len() - i,
{
    i < 0 || i >= entries.len() || (entries[i].key.value is Str && writable(entries[i].value, d)
        && writable_entries(entries, i + 1, d))
}

/// A document can be written: see [`writable`].
pub open spec fn doc_writable(doc: DocumentM) -> bool {
    if doc.bare_root {
        match doc.root.value {
            ValueM::Object { entries, .. } => writable_entries(entries, 0, 0),
            _ => true,
        }
    } else {
        writable(doc.root, 0)
    }
}


// ---------------------------------------------------------------------
// Lemmas.

/// `nl_skip` stops at the end or at a character that is not a line break.
proof fn lemma_nl_skip_stop(s: Seq<char>, i: int)
    requires
        0 <= i <= s.len(),
    ensures
        nl_skip(s, i) == s.len() || s[nl_skip(s, i)] != '\n',
    decreases s.len() - i,
{
    if i < s.len() && s[i] == '\n' {
        lemma_nl_skip_stop(s, i + 1);
    }
}

/// `nl_back` stops at `lo` or after a character that is not a line break.
proof fn lemma_nl_back_stop(s: Seq<char>, lo: int, j: int)
    requires
        0 <= lo <= j <= s.len(),
    ensures
        nl_back(s, lo, j) == lo || s[nl_back(s, lo, j) - 1] != '\n',
    decreases j - lo,
{
    if lo < j && s[j - 1] == '\n' {
        lemma_nl_back_stop(s, lo, j - 1);
    }
}

/// The writer's text ends with exactly one line break, and starts with
/// none unless it is a lone line break.
pub proof fn law_written_text_shape(d: DocumentM)
    ensures
        ({
            let t = write_spec(d);
            &&& t.len() > 0
            &&& t.last() == '\n'
            &&& t == seq!['\n'] || (t.len() >= 2 && t[0] != '\n' && t[t.len() - 2] != '\n')
        }),
{
    let raw = w_document_raw(d);
    let a = nl_skip(raw, 0);
    lemma_nl_skip(raw, 0);
    lemma_nl_skip_stop(raw, 0);
    let b = nl_back(raw, a, raw.len() as int);
    lemma_nl_back(raw, a, raw.len() as int);
    lemma_nl_back_stop(raw, a, raw.len() as int);
    let mid = raw.subrange(a, b);
    let t = write_spec(d);
    assert(t == mid + seq!['\n']);
    if b == a {
        assert(t =~= seq!['\n']);
    } else {
        assert(t[0] == raw[a]);
        assert(t[t.len() - 2] == raw[b - 1]);
    }
}

proof fn lemma_writable_entries(entries: Seq<EntryM>, i: int, d: int)
    requires
        0 <= i,
        writable_entries(entries, i, d),
    ensures
        forall|j: int| i <= j < entries.len() ==> (#[trigger] entries[j]).key.value is Str && writable(entries[j].value, d),
    decreases entries.len() - i,
{
    if i < entries.len() {
        lemma_writable_entries(entries, i + 1, d);
    }
}

proof fn lemma_writable_items(items: Seq<NodeM>, i: int, d: int)
    requires
        0 <= i,
        writable_items(items, i, d),
    ensures
        forall|j: int| i <= j < items.len() ==> writable(#[trigger] items[j], d),
    decreases items.len() - i,
{
    if i < items.len() {
        lemma_writable_items(items, i + 1, d);
    }
}

pub proof fn lemma_ws_skip(s: Seq<char>, i: int)
    requires
        0 <= i <= s.len(),
    ensures
        i <= ws_skip(s, i) <= s.len(),
    decreases s.len() - i,
{
    if i < s.len() && is_ws_spec(s[i]) {
        lemma_ws_skip(s, i + 1);
    }
}

pub proof fn lemma_ws_back(s: Seq<char>, lo: int, j: int)
    requires
        0 <= lo <= j <= s.len(),
    ensures
        lo <= ws_back(s, lo, j) <= j,
    decreases j - lo,
{
    if lo < j && is_ws_spec(s[j - 1]) {
        lemma_ws_back(s, lo, j - 1);
    }
}

pub proof fn lemma_nl_skip(s: Seq<char>, i: int)
    requires
        0 <= i <= s.len(),
    ensures
        i <= nl_skip(s, i) <= s.len(),
    decreases s.len() - i,
{
    if i < s.len() && s[i] == '\n' {
        lemma_nl_skip(s, i + 1);
    }
}

pub proof fn lemma_nl_back(s: Seq<char>, lo: int, j: int)
    requires
        0 <= lo <= j <= s.len(),
    ensures
        lo <= nl_back(s, lo, j) <= j,
    decreases j - lo,
{
    if lo < j && s[j - 1] == '\n' {
        lemma_nl_back(s, lo, j - 1);
    }
}

// ---------------------------------------------------------------------
// Executable writer.

fn push_str(out: &mut Vec<char>, s: &str)
    ensures
        final(out)@ == old(out)@ + s@,
{
    let cs = chars_of(s);
    push_all(out, &cs);
}

fn push_range(out: &mut Vec<char>, v: &Vec<char>, a: usize, b: usize)
    requires
        a <= b <= v@.len(),
    ensures
        final(out)@ == old(out)@ + v@.subrange(a as int, b as int),
{
    let ghost o = out@;
    let mut k = a;
    while k < b
        invariant
            a <= k <= b <= v@.len(),
            out@ == o + v@.subrange(a as int, k as int),
        decreases b - k,
    {
        out.push(v[k]);
        k += 1;
        assert(out@ =~= o + v@.subrange(a as int, k as int));
    }
}

fn push_indent(out: &mut Vec<char>, st: &Style, depth: usize)
    ensures
        final(out)@ == old(out)@ + ind(*st, depth as int),
{
    let s = st.indent().render(depth);
    push_str(out, s.as_str());
}

/// The bounds of `str::trim` of `line`.
fn trim_bounds(line: &Vec<char>) -> (r: (usize, usize))
    ensures
        r.0 as int == ws_skip(line@, 0),
        r.1 as int == ws_back(line@, r.0 as int, line@.len() as int),
        r.0 <= r.1 <= line@.len(),
{
    proof { lemma_ws_skip(line@, 0); }
    let mut a: usize = 0;
    while a < line.len() && is_ws(line[a])
        invariant
            a <= line@.len(),
            ws_skip(line@, a as int) == ws_skip(line@, 0),
        decreases line@.len() - a,
    {
        a += 1;
    }
    proof { lemma_ws_back(line@, a as int, line@.len() as int); }
    let mut b: usize = line.len();
    while b > a && is_ws(line[b - 1])
        invariant
            a <= b <= line@.len(),
            ws_back(line@, a as int, b as int) == ws_back(line@, a as int, line@.len() as int),
        decreases b - a,
    {
        b -= 1;
    }
    (a, b)
}

fn write_line(out: &mut Vec<char>, line: &Vec<char>, depth: usize, st: &Style)
    ensures
        final(out)@ == old(out)@ + w_line(line@, depth as int, *st),
{
    let ghost o = out@;
    let (a, b) = trim_bounds(line);
    out.push('\n');
    if b > a {
        push_indent(out, st, depth);
        push_range(out, line, a, b);
    }
    assert(out@ =~= o + w_line(line@, depth as int, *st));
}

fn copy_range(v: &Vec<char>, a: usize, b: usize) -> (r: Vec<char>)
    requires
        a <= b <= v@.len(),
    ensures
        r@ == v@.subrange(a as int, b as int),
{
    let mut r: Vec<char> = Vec::new();
    push_range(&mut r, v, a, b);
    assert(r@ =~= v@.subrange(a as int, b as int));
    r
}

/// Writes the comment/blank lines of `prefix`, re-indented at `depth`.
fn write_prefix_lines(out: &mut Vec<char>, prefix: &str, depth: usize, st: &Style)
    ensures
        final(out)@ == old(out)@ + w_prefix(prefix@, depth as int, *st),
{
    let ghost o = out@;
    let p = chars_of(prefix);
    let mut i: usize = 0;
    let mut start: usize = 0;
    while i < p.len()
        invariant
            start <= i <= p@.len(),
            p@ == prefix@,
            o + w_lines_from(p@, 0, 0, depth as int, *st) == out@ + w_lines_from(p@, i as int, start as int, depth as int, *st),
        decreases p@.len() - i,
    {
        if p[i] == '\n' {
            let line = copy_range(&p, start, i);
            let ghost before = out@;
            write_line(out, &line, depth, st);
            assert(out@ + w_lines_from(p@, i + 1, i + 1, depth as int, *st)
                =~= before + w_lines_from(p@, i as int, start as int, depth as int, *st));
            start = i + 1;
        }
        i += 1;
    }
    if start < p.len() {
        let line = copy_range(&p, start, p.len());
        write_line(out, &line, depth, st);
    }
    assert(out@ =~= o + w_prefix(prefix@, depth as int, *st));
}

/// Writes `prefix` (blank lines + comments), then unconditionally moves
/// to a fresh, indented line.
fn write_break(out: &mut Vec<char>, prefix: &str, depth: usize, st: &Style)
    ensures
        final(out)@ == old(out)@ + w_break(prefix@, depth as int, *st),
{
    let ghost o = out@;
    write_prefix_lines(out, prefix, depth, st);
    out.push('\n');
    push_indent(out, st, depth);
    assert(out@ =~= o + w_break(prefix@, depth as int, *st));
}

/// Writes `prefix`, then either a single separating space (no comment) or
/// a fresh indented line (a comment runs to end of line).
fn write_soft(out: &mut Vec<char>, prefix: &str, depth: usize, st: &Style)
    ensures
        final(out)@ == old(out)@ + w_soft(prefix@, depth as int, *st),
{
    let ghost o = out@;
    if prefix.is_empty() {
        out.push(' ');
    } else {
        write_prefix_lines(out, prefix, depth, st);
        out.push('\n');
        push_indent(out, st, depth);
    }
    assert(out@ =~= o + w_soft(prefix@, depth as int, *st));
}

fn hex_lower_exec(v: u32) -> (r: char)
    requires
        v < 16,
    ensures
        r == hex_lower(v as int),
{
    if v < 10 {
        ((('0' as u32) + v) as u8) as char
    } else {
        ((('a' as u32) + v - 10) as u8) as char
    }
}

/// Writes `text` as a string literal quoted with `quote`.
fn write_quoted(out: &mut Vec<char>, text: &str, quote: Quote)
    ensures
        final(out)@ == old(out)@ + w_quoted(text@, quote),
{
    let ghost o = out@;
    let q = match quote {
        Quote::Double => '"',
        Quote::Single => '\'',
    };
    out.push(q);
    let t = chars_of(text);
    let mut i: usize = 0;
    while i < t.len()
        invariant
            i <= t@.len(),
            t@ == text@,
            q == quote_char(quote),
            out@ == o + seq![q] + esc(t@.take(i as int), q),
        decreases t@.len() - i,
    {
        let c = t[i];
        let ghost before = out@;
        if c == '\\' {
            out.push('\\');
            out.push('\\');
        } else if c == '\n' {
            out.push('\\');
            out.push('n');
        } else if c == '\r' {
            out.push('\\');
            out.push('r');
        } else if c == '\t' {
            out.push('\\');
            out.push('t');
        } else if c == '\u{8}' {
            out.push('\\');
            out.push('b');
        } else if c == '\u{c}' {
            out.push('\\');
            out.push('f');
        } else if c == q {
            out.push('\\');
            out.push(c);
        } else if (c as u32) < 0x20 {
            out.push('\\');
            out.push('u');
            out.push('0');
            out.push('0');
            out.push(hex_lower_exec((c as u32) / 16));
            out.push(hex_lower_exec((c as u32) % 16));
        } else {
            out.push(c);
        }
        assert(out@ =~= before + esc_char(c, q));
        assert(t@.take(i + 1).drop_last() =~= t@.take(i as int));
        i += 1;
    }
    out.push(q);
    assert(t@.take(t@.len() as int) =~= t@);
    assert(out@ =~= o + w_quoted(text@, quote));
}

/// Whether `text` can be written as a bare key.
fn is_valid_bare(text: &str) -> (r: bool)
    ensures
        r == is_valid_bare_spec(text@),
{
    let t = chars_of(text);
    if t.len() == 0 || !is_id_start(t[0]) {
        return false;
    }
    let mut i: usize = 1;
    while i < t.len()
        invariant
            1 <= i <= t@.len(),
            t@ == text@,
            forall|k: int| 1 <= k < i ==> #[trigger] is_id_end_spec(t@[k]),
        decreases t@.len() - i,
    {
        if !is_id_end(t[i]) {
            return false;
        }
        i += 1;
    }
    true
}

fn write_verbatim(out: &mut Vec<char>, text: &str, depth: usize, st: &Style)
    ensures
        final(out)@ == old(out)@ + w_verbatim_from(text@, 0, 0, true, depth as int, *st),
{
    let ghost o = out@;
    let t = chars_of(text);
    let mut i: usize = 0;
    let mut start: usize = 0;
    let mut first = true;
    while i < t.len()
        invariant
            start <= i <= t@.len(),
            t@ == text@,
            first ==> start == 0,
            o + w_verbatim_from(t@, 0, 0, true, depth as int, *st)
                == out@ + w_verbatim_from(t@, i as int, start as int, first, depth as int, *st),
        decreases t@.len() - i,
    {
        if t[i] == '\n' {
            let ghost before = out@;
            if !first {
                out.push('\n');
                push_indent(out, st, depth);
            }
            out.push('|');
            push_range(out, &t, start, i);
            assert(out@ + w_verbatim_from(t@, i + 1, i + 1, false, depth as int, *st)
                =~= before + w_verbatim_from(t@, i as int, start as int, first, depth as int, *st));
            start = i + 1;
            first = false;
        }
        i += 1;
    }
    let ghost before = out@;
    if !first {
        out.push('\n');
        push_indent(out, st, depth);
    }
    out.push('|');
    push_range(out, &t, start, t.len());
    assert(out@ =~= before + w_verbatim_from(t@, i as int, start as int, first, depth as int, *st));
}

fn contains_newline(text: &str) -> (r: bool)
    ensures
        r == text@.contains('\n'),
{
    let t = chars_of(text);
    let mut i: usize = 0;
    while i < t.len()
        invariant
            i <= t@.len(),
            t@ == text@,
            forall|k: int| 0 <= k < i ==> t@[k] != '\n',
        decreases t@.len() - i,
    {
        if t[i] == '\n' {
            assert(t@[i as int] == '\n');
            return true;
        }
        i += 1;
    }
    false
}

fn write_string_value(out: &mut Vec<char>, s: &CsonStr, depth: usize, st: &Style)
    ensures
        final(out)@ == old(out)@ + w_string(s@, depth as int, *st),
{
    let text = s.value.as_str();
    if st.verbatim_strings() && contains_newline(text) {
        write_verbatim(out, text, depth, st);
    } else {
        write_quoted(out, text, st.value_quote());
    }
}

fn write_key(out: &mut Vec<char>, key: &Node, st: &Style)
    requires
        key@.value is Str,
    ensures
        final(out)@ == old(out)@ + w_key(key@, *st),
{
    let text = match &key.value {
        Value::Str(s) => s.value.as_str(),
        _ => "",
    };
    match st.key_style() {
        KeyStyle::Bare => {
            if is_valid_bare(text) {
                push_str(out, text);
            } else {
                write_quoted(out, text, st.value_quote());
            }
        },
        KeyStyle::Double => write_quoted(out, text, Quote::Double),
        KeyStyle::Single => write_quoted(out, text, Quote::Single),
    }
}

/// Writes just the separator character(s).
fn write_separator(out: &mut Vec<char>, st: &Style)
    ensures
        final(out)@ == old(out)@ + w_sep(*st),
{
    let ghost o = out@;
    match st.separator() {
        Separator::Colon => out.push(':'),
        Separator::Equals => {
            out.push(' ');
            out.push('=');
        },
    }
    assert(out@ =~= o + w_sep(*st));
}

fn write_comma(out: &mut Vec<char>, st: &Style, is_last: bool)
    ensures
        final(out)@ == old(out)@ + w_comma(*st, is_last),
{
    let ghost o = out@;
    if st.commas() && (!is_last || st.trailing_comma()) {
        out.push(',');
    }
    assert(out@ =~= o + w_comma(*st, is_last));
}


fn trimmed_is_empty(text: &str) -> (r: bool)
    ensures
        r == (trim(text@).len() == 0),
{
    let t = chars_of(text);
    let (a, b) = trim_bounds(&t);
    a == b
}

#[verifier::loop_isolation(false)]
fn write_value(out: &mut Vec<char>, node: &Node, depth: usize, st: &Style)
    requires
        writable(node@, depth as int),
    ensures
        final(out)@ == old(out)@ + w_value(node@, depth as int, *st),
    decreases node, 0int,
{
    let ghost o = out@;
    match &node.value {
        Value::Null => push_str(out, "null"),
        Value::Bool(b) => {
            if *b {
                push_str(out, "true");
            } else {
                push_str(out, "false");
            }
        },
        Value::Number(n) => push_str(out, n.raw.as_str()),
        Value::Str(s) => write_string_value(out, s, depth, st),
        Value::Array { items, trailing } => {
            proof {
                assert(decreases_to!(*node => node.value));
                assert(node.value is Array && node.value->Array_items == *items);
                assert(decreases_to!(node.value => node.value->Array_items));
            }
            write_array(out, items, trailing.as_str(), depth, st);
        },
        Value::Object { entries, trailing } => {
            proof {
                assert(decreases_to!(*node => node.value));
                assert(node.value is Object && node.value->Object_entries == *entries);
                assert(decreases_to!(node.value => node.value->Object_entries));
            }
            write_object(out, entries, trailing.as_str(), depth, st);
        },
    }
    assert(out@ =~= o + w_value(node@, depth as int, *st));
}

fn write_object(out: &mut Vec<char>, entries: &Vec<Entry>, trailing: &str, depth: usize, st: &Style)
    requires
        0 <= depth,
        depth + 1 < usize::MAX,
        writable_entries(crate::entries_model(entries@), 0, depth + 1),
    ensures
        final(out)@ == old(out)@ + seq!['{'] + if entries@.len() == 0 && trim(trailing@).len() == 0 {
            seq!['}']
        } else {
            w_entries_from(crate::entries_model(entries@), 0, depth as int, *st) + w_break(trailing@, depth as int, *st)
                + seq!['}']
        },
    decreases entries, 2int,
{
    let ghost o = out@;
    out.push('{');
    if entries.len() == 0 && trimmed_is_empty(trailing) {
        out.push('}');
        assert(out@ =~= o + seq!['{'] + seq!['}']);
        return;
    }
    let ghost mid = out@;
    write_object_entries(out, entries, depth + 1, st);
    write_break(out, trailing, depth, st);
    out.push('}');
    assert(out@ =~= o + seq!['{'] + (w_entries_from(crate::entries_model(entries@), 0, depth as int, *st)
        + w_break(trailing@, depth as int, *st) + seq!['}']));
}

/// Writes entries `0..` of an object at `depth` (each on its own line one
/// level deeper), then the trailing trivia and a fresh line.
#[verifier::loop_isolation(false)]
fn write_object_entries(out: &mut Vec<char>, entries: &Vec<Entry>, inner: usize, st: &Style)
    requires
        inner < usize::MAX,
        writable_entries(crate::entries_model(entries@), 0, inner as int),
    ensures
        final(out)@ == old(out)@ + w_entries_from(crate::entries_model(entries@), 0, inner - 1, *st),
    decreases entries, 1int,
{
    let ghost o = out@;
    let ghost m = crate::entries_model(entries@);
    let ghost d: int = inner - 1;
    proof { lemma_writable_entries(m, 0, inner as int); }
    let mut i: usize = 0;
    while i < entries.len()
        invariant
            i <= entries@.len(),
            o + w_entries_from(m, 0, d, *st) == out@ + w_entries_from(m, i as int, d, *st),
        decreases entries@.len() - i,
    {
        let ghost before = out@;
        let entry = &entries[i];
        assert(m[i as int] == entry@);
        write_break(out, entry.key.prefix.as_str(), inner, st);
        write_key(out, &entry.key, st);
        write_separator(out, st);
        write_soft(out, entry.value.prefix.as_str(), inner, st);
        proof {
            assert(decreases_to!(*entries => entries@));
            assert(decreases_to!(entries@ => entries@[i as int]));
            assert(decreases_to!(entries@[i as int] => entries@[i as int].value));
        }
        write_value(out, &entry.value, inner, st);
        write_comma(out, st, i + 1 == entries.len());
        assert(out@ + w_entries_from(m, i + 1, d, *st) =~= before + w_entries_from(m, i as int, d, *st));
        i += 1;
    }
    assert(out@ =~= o + w_entries_from(m, 0, d, *st));
}

#[verifier::loop_isolation(false)]
fn write_array(out: &mut Vec<char>, items: &Vec<Node>, trailing: &str, depth: usize, st: &Style)
    requires
        depth + 1 < usize::MAX,
        writable_items(crate::nodes_model(items@), 0, depth + 1),
    ensures
        final(out)@ == old(out)@ + seq!['['] + if items@.len() == 0 && trim(trailing@).len() == 0 {
            seq![']']
        } else {
            w_items_from(crate::nodes_model(items@), 0, depth as int, *st) + w_break(trailing@, depth as int, *st)
                + seq![']']
        },
    decreases items, 1int,
{
    let ghost o = out@;
    let ghost m = crate::nodes_model(items@);
    proof { lemma_writable_items(m, 0, depth + 1); }
    out.push('[');
    if items.len() == 0 && trimmed_is_empty(trailing) {
        out.push(']');
        assert(out@ =~= o + seq!['['] + seq![']']);
        return;
    }
    let ghost o2 = out@;
    let inner = depth + 1;
    let mut i: usize = 0;
    while i < items.len()
        invariant
            i <= items@.len(),
            o2 + w_items_from(m, 0, depth as int, *st) == out@ + w_items_from(m, i as int, depth as int, *st),
        decreases items@.len() - i,
    {
        let ghost before = out@;
        let item = &items[i];
        assert(m[i as int] == item@);
        write_break(out, item.prefix.as_str(), inner, st);
        proof {
            assert(decreases_to!(*items => items@));
            assert(decreases_to!(items@ => items@[i as int]));
        }
        write_value(out, item, inner, st);
        write_comma(out, st, i + 1 == items.len());
        assert(out@ + w_items_from(m, i + 1, depth as int, *st) =~= before + w_items_from(m, i as int, depth as int, *st));
        i += 1;
    }
    write_break(out, trailing, depth, st);
    out.push(']');
    assert(out@ =~= o + seq!['['] + (w_items_from(m, 0, depth as int, *st) + w_break(trailing@, depth as int, *st)
        + seq![']']));
}

/// Renders `doc` as CSON text.
pub fn write_document(doc: &Document) -> (r: String)
    requires
        doc_writable(doc@),
    ensures
        r@ == write_spec(doc@),
{
    let st = &doc.style;
    let mut out: Vec<char> = Vec::new();
    if doc.bare_root {
        match &doc.root.value {
            Value::Object { entries, .. } => {
                proof { reveal_strlit(""); }
                assert(""@ =~= Seq::<char>::empty());
                write_object_entries(&mut out, entries, 0, st);
                write_break(&mut out, "", 0, st);
            },
            _ => {},
        }
    } else {
        write_break(&mut out, doc.root.prefix.as_str(), 0, st);
        write_value(&mut out, &doc.root, 0, st);
    }
    write_break(&mut out, doc.suffix.as_str(), 0, st);
    assert(out@ =~= w_document_raw(doc@));
    proof { lemma_nl_skip(out@, 0); }
    let mut a: usize = 0;
    while a < out.len() && out[a] == '\n'
        invariant
            a <= out@.len(),
            nl_skip(out@, a as int) == nl_skip(out@, 0),
        decreases out@.len() - a,
    {
        a += 1;
    }
    proof { lemma_nl_back(out@, a as int, out@.len() as int); }
    let mut b: usize = out.len();
    while b > a && out[b - 1] == '\n'
        invariant
            a <= b <= out@.len(),
            nl_back(out@, a as int, b as int) == nl_back(out@, a as int, out@.len() as int),
        decreases b - a,
    {
        b -= 1;
    }
    let mut s = string_of(&out, a, b);
    crate::text::push_char(&mut s, '\n');
    s
}

// ---------------------------------------------------------------------
// Checking that a tree can be written.

fn node_writable(n: &Node, d: usize) -> (r: bool)
    ensures
        r == writable(n@, d as int),
    decreases n, 1int,
{
    if d >= usize::MAX - 1 {
        return false;
    }
    match &n.value {
        Value::Array { items, .. } => items_writable(items, d + 1),
        Value::Object { entries, .. } => entries_writable(entries, d + 1),
        _ => true,
    }
}

#[verifier::loop_isolation(false)]
fn items_writable(items: &Vec<Node>, d: usize) -> (r: bool)
    ensures
        r == writable_items(crate::nodes_model(items@), 0, d as int),
    decreases items, 0int,
{
    let ghost m = crate::nodes_model(items@);
    let mut i: usize = 0;
    while i < items.len()
        invariant
            i <= items@.len(),
            m == crate::nodes_model(items@),
            writable_items(m, 0, d as int) == writable_items(m, i as int, d as int),
        decreases items.len() - i,
    {
        proof {
            assert(decreases_to!(items => items@));
            assert(decreases_to!(items@ => items@[i as int]));
        }
        if !node_writable(&items[i], d) {
            return false;
        }
        i += 1;
    }
    true
}

#[verifier::loop_isolation(false)]
fn entries_writable(entries: &Vec<Entry>, d: usize) -> (r: bool)
    ensures
        r == writable_entries(crate::entries_model(entries@), 0, d as int),
    decreases entries, 0int,
{
    let ghost m = crate::entries_model(entries@);
    let mut i: usize = 0;
    while i < entries.len()
        invariant
            i <= entries@.len(),
            m == crate::entries_model(entries@),
            writable_entries(m, 0, d as int) == writable_entries(m, i as int, d as int),
        decreases entries.len() - i,
    {
        let is_str = match &entries[i].key.value {
            Value::Str(_) => true,
            _ => false,
        };
        if !is_str {
            return false;
        }
        proof {
            assert(decreases_to!(entries => entries@));
            assert(decreases_to!(entries@ => entries@[i as int]));
            assert(decreases_to!(entries@[i as int] => entries@[i as int].value));
        }
        if !node_writable(&entries[i].value, d) {
            return false;
        }
        i += 1;
    }
    true
}

/// Whether `doc` can be written (see [`doc_writable`]): every object key is
/// a string -- always the case for a parsed document, or one built from
/// `insert` calls -- and the nesting depth fits the machine.
pub fn is_writable(doc: &Document) -> (r: bool)
    ensures
        r == doc_writable(doc@),
{
    if doc.bare_root {
        match &doc.root.value {
            Value::Object { entries, .. } => entries_writable(entries, 0),
            _ => true,
        }
    } else {
        node_writable(&doc.root, 0)
    }
}

} // verus!
