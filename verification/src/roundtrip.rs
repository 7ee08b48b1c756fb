//! Reading back what the writer wrote.
//!
//! The writer's text is lexed piece by piece (each piece of
//! [`crate::writer`]'s specification lexes to a known run of symbols), the
//! symbols are matched to the parser's view of the token stream, and the
//! parser is shown to rebuild a tree with the same values.

use vstd::prelude::*;
use crate::lexer::{
    at, bare_end, digits_end, is_digit, is_id_end_spec, is_id_start_spec, is_line_break, lex_from, lex_step,
    lemma_digits_end, lemma_line_end, lex_spec, line_end, number_end, opt_seq, punct_tok, then_seq, ItemM, QuoteKind, TokM,
};
use crate::model::ErrM;
use crate::number::valid_literal;
use crate::quoting::lemma_quoted_at;
use crate::model::{DocumentM, EntryM, NodeM, ValueM};
use crate::parser::{
    pref, verb_extra, law_parse_leaves_indent_and_bare_roots_are_objects, law_parsed_document_form, parsed_form, ctx_of, parse_spec, strip_bom, p_document, real_toks, frag, note_commas, p_key, p_sep, p_arr_items, p_array, p_bare_root, p_obj_entries, p_object, p_value, verb_end, verb_join, PCtx, note_verbatim_strings,
    note_value_quote, note_trailing_comma, note_separator, note_key_style};
use crate::style::{empty_style, KeyStyle, Quote, Separator, Style};
use crate::style::indent_char;
use crate::text::is_ws_spec;
use crate::trivia::{
    comment_lines, count_real, is_comment_text, lemma_count_real_bound, lemma_count_real_nonneg, lemma_count_real_take,
    scan_step, scan_upto, ScanState,
};
use crate::writer::{
    ind, lemma_ws_back, quote_char, trim, w_break, w_line, w_lines_from, w_prefix, w_quoted, w_soft, ws_back, ws_skip, w_comma, is_valid_bare_spec, w_key, w_sep, w_string, w_value,
    w_verbatim_from, w_items_from, w_entries_from, nl_skip, nl_back, w_document_raw, write_spec,
};

verus! {

// ---------------------------------------------------------------------
// What the parser needs of a lexed item.

/// A lexed item without its position: a line break, a comment, or a real
/// token.
pub enum Sym {
    N,
    C(Seq<char>),
    T(TokM),
}

pub open spec fn sym_of(it: ItemM) -> Sym {
    match it {
        ItemM::Real(t, _, _) => Sym::T(t),
        ItemM::Comment(t) => Sym::C(t),
        ItemM::Newline => Sym::N,
    }
}

pub open spec fn syms(items: Seq<ItemM>) -> Seq<Sym> {
    items.map_values(|it: ItemM| sym_of(it))
}

/// The symbols of a lexing result, if it succeeded.
pub open spec fn lsyms(r: Result<Seq<ItemM>, ErrM>) -> Option<Seq<Sym>> {
    match r {
        Ok(items) => Some(syms(items)),
        Err(_) => None,
    }
}

pub open spec fn then_o(pre: Seq<Sym>, r: Option<Seq<Sym>>) -> Option<Seq<Sym>> {
    match r {
        Some(rest) => Some(pre + rest),
        None => None,
    }
}

/// Lexing `s` from `i` gives the symbols `sy`, then whatever lexing from
/// `j` gives.
pub open spec fn lx(s: Seq<char>, i: int, j: int, sy: Seq<Sym>) -> bool {
    &&& 0 <= i <= j <= s.len()
    &&& lsyms(lex_from(s, i)) == then_o(sy, lsyms(lex_from(s, j)))
}

/// `s[i..i + w.len()]` is `w`.
pub open spec fn at_is(s: Seq<char>, i: int, w: Seq<char>) -> bool {
    &&& 0 <= i
    &&& i + w.len() <= s.len()
    &&& s.subrange(i, i + w.len()) == w
}

proof fn lemma_syms_concat(a: Seq<ItemM>, b: Seq<ItemM>)
    ensures
        syms(a + b) =~= syms(a) + syms(b),
{
}

proof fn lemma_at_is_char(s: Seq<char>, i: int, w: Seq<char>, k: int)
    requires
        at_is(s, i, w),
        0 <= k < w.len(),
    ensures
        s[i + k] == w[k],
{
    assert(s.subrange(i, i + w.len())[k] == s[i + k]);
}

/// One lexing step.
proof fn lemma_lx_step(s: Seq<char>, i: int, it: Option<ItemM>, j: int)
    requires
        0 <= i < s.len(),
        lex_step(s, i) == Ok::<(Option<ItemM>, int), ErrM>((it, j)),
        i < j <= s.len(),
    ensures
        lx(s, i, j, syms(opt_seq(it))),
{
    assert(lex_from(s, i) == then_seq(opt_seq(it), lex_from(s, j)));
    match lex_from(s, j) {
        Ok(rest) => {
            lemma_syms_concat(opt_seq(it), rest);
        },
        Err(_) => {},
    }
}

pub proof fn lemma_lx_empty(s: Seq<char>, i: int)
    requires
        0 <= i <= s.len(),
    ensures
        lx(s, i, i, Seq::empty()),
{
    match lsyms(lex_from(s, i)) {
        Some(r) => assert(Seq::<Sym>::empty() + r =~= r),
        None => {},
    }
}

pub proof fn lemma_lx_trans(s: Seq<char>, i: int, j: int, k: int, a: Seq<Sym>, b: Seq<Sym>)
    requires
        lx(s, i, j, a),
        lx(s, j, k, b),
    ensures
        lx(s, i, k, a + b),
{
    match lsyms(lex_from(s, k)) {
        Some(r) => assert(a + (b + r) =~= (a + b) + r),
        None => {},
    }
}

/// Lexing the whole of `s` gives exactly `sy`.
pub proof fn lemma_lx_all(s: Seq<char>, sy: Seq<Sym>)
    requires
        lx(s, 0, s.len() as int, sy),
    ensures
        lsyms(lex_from(s, 0)) == Some(sy),
{
    assert(lex_from(s, s.len() as int) == Ok::<Seq<ItemM>, ErrM>(Seq::empty()));
    assert(syms(Seq::<ItemM>::empty()) =~= Seq::<Sym>::empty());
    assert(sy + Seq::<Sym>::empty() =~= sy);
}

// ---------------------------------------------------------------------
// Single items.

pub proof fn lemma_lx_blank(s: Seq<char>, i: int)
    requires
        0 <= i < s.len(),
        s[i] == ' ' || s[i] == '\t',
    ensures
        lx(s, i, i + 1, Seq::empty()),
{
    lemma_lx_step(s, i, None, i + 1);
    assert(syms(opt_seq::<ItemM>(None)) =~= Seq::<Sym>::empty());
}

pub proof fn lemma_lx_nl(s: Seq<char>, i: int)
    requires
        0 <= i < s.len(),
        s[i] == '\n',
    ensures
        lx(s, i, i + 1, seq![Sym::N]),
{
    lemma_lx_step(s, i, Some(ItemM::Newline), i + 1);
    assert(syms(opt_seq(Some(ItemM::Newline))) =~= seq![Sym::N]);
}

/// A run of blanks lexes to nothing.
pub proof fn lemma_lx_blanks(s: Seq<char>, i: int, w: Seq<char>)
    requires
        at_is(s, i, w),
        forall|k: int| 0 <= k < w.len() ==> (#[trigger] w[k] == ' ' || w[k] == '\t'),
    ensures
        lx(s, i, i + w.len(), Seq::empty()),
    decreases w.len(),
{
    if w.len() == 0 {
        lemma_lx_empty(s, i);
    } else {
        lemma_at_is_char(s, i, w, 0);
        lemma_lx_blank(s, i);
        let rest = w.drop_first();
        assert(at_is(s, i + 1, rest)) by {
            assert(s.subrange(i + 1, i + 1 + rest.len()) =~= rest) by {
                assert forall|k: int| 0 <= k < rest.len() implies s.subrange(i + 1, i + 1 + rest.len())[k] == rest[k] by {
                    lemma_at_is_char(s, i, w, k + 1);
                }
            }
        }
        assert forall|k: int| 0 <= k < rest.len() implies (#[trigger] rest[k] == ' ' || rest[k] == '\t') by {
            assert(rest[k] == w[k + 1]);
        }
        lemma_lx_blanks(s, i + 1, rest);
        lemma_lx_trans(s, i, i + 1, i + w.len(), Seq::empty(), Seq::empty());
        assert(Seq::<Sym>::empty() + Seq::<Sym>::empty() =~= Seq::<Sym>::empty());
    }
}

/// `line_end` from `a` stops at `b` when nothing in between breaks the
/// line and `b` does (or is the end).
pub proof fn lemma_line_end_at(s: Seq<char>, a: int, b: int)
    requires
        0 <= a <= b <= s.len(),
        forall|k: int| a <= k < b ==> !is_line_break(#[trigger] s[k]),
        b == s.len() || is_line_break(s[b]),
    ensures
        line_end(s, a) == b,
    decreases b - a,
{
    if a < b {
        lemma_line_end_at(s, a + 1, b);
    }
}

/// `bare_end` from `a` stops at `b` when everything in between is an
/// `id-end` character and `b` is not.
pub proof fn lemma_bare_end_at(s: Seq<char>, a: int, b: int)
    requires
        0 <= a <= b <= s.len(),
        forall|k: int| a <= k < b ==> is_id_end_spec(#[trigger] s[k]),
        !is_id_end_spec(at(s, b)),
    ensures
        bare_end(s, a) == b,
    decreases b - a,
{
    if a < b {
        lemma_bare_end_at(s, a + 1, b);
    }
}

/// A comment lexes to one comment item when a line break (or the end)
/// follows it.
pub proof fn lemma_lx_comment(s: Seq<char>, i: int, c: Seq<char>)
    requires
        at_is(s, i, c),
        c.len() > 0,
        c[0] == '#',
        forall|k: int| 0 <= k < c.len() ==> !is_line_break(#[trigger] c[k]),
        i + c.len() == s.len() || is_line_break(s[i + c.len()]),
    ensures
        lx(s, i, i + c.len(), seq![Sym::C(c)]),
{
    lemma_at_is_char(s, i, c, 0);
    assert forall|k: int| i + 1 <= k < i + c.len() implies !is_line_break(#[trigger] s[k]) by {
        lemma_at_is_char(s, i, c, k - i);
    }
    lemma_line_end_at(s, i + 1, i + c.len());
    assert(s.subrange(i, i + c.len()) == c);
    lemma_lx_step(s, i, Some(ItemM::Comment(c)), i + c.len());
    assert(syms(opt_seq(Some(ItemM::Comment(c)))) =~= seq![Sym::C(c)]);
}

pub proof fn lemma_lx_punct(s: Seq<char>, i: int)
    requires
        0 <= i < s.len(),
        punct_tok(s[i]) is Some,
    ensures
        lx(s, i, i + 1, seq![Sym::T(punct_tok(s[i])->0)]),
{
    let t = punct_tok(s[i])->0;
    lemma_lx_step(s, i, Some(ItemM::Real(t, i, i + 1)), i + 1);
    assert(syms(opt_seq(Some(ItemM::Real(t, i, i + 1)))) =~= seq![Sym::T(t)]);
}

/// A verbatim fragment `|seg` lexes to one fragment token when a line
/// break (or the end) follows it.
pub proof fn lemma_lx_fragment(s: Seq<char>, i: int, seg: Seq<char>)
    requires
        0 <= i < s.len(),
        s[i] == '|',
        at_is(s, i + 1, seg),
        forall|k: int| 0 <= k < seg.len() ==> !is_line_break(#[trigger] seg[k]),
        i + 1 + seg.len() == s.len() || is_line_break(s[i + 1 + seg.len()]),
    ensures
        lx(s, i, i + 1 + seg.len(), seq![Sym::T(TokM::Verbatim(seg))]),
{
    assert forall|k: int| i + 1 <= k < i + 1 + seg.len() implies !is_line_break(#[trigger] s[k]) by {
        lemma_at_is_char(s, i + 1, seg, k - i - 1);
    }
    lemma_line_end_at(s, i + 1, i + 1 + seg.len());
    let e = i + 1 + seg.len();
    let it = ItemM::Real(TokM::Verbatim(seg), i, e);
    lemma_lx_step(s, i, Some(it), e);
    assert(syms(opt_seq(Some(it))) =~= seq![Sym::T(TokM::Verbatim(seg))]);
}

/// A bare word lexes to one bare token when no `id-end` character follows
/// it (and it does not read as a negative number).
pub proof fn lemma_lx_bare(s: Seq<char>, i: int, w: Seq<char>)
    requires
        at_is(s, i, w),
        w.len() > 0,
        is_id_start_spec(w[0]),
        forall|k: int| 1 <= k < w.len() ==> is_id_end_spec(#[trigger] w[k]),
        !(w[0] == '-' && is_digit(at(s, i + 1))),
        !is_id_end_spec(at(s, i + w.len())),
    ensures
        lx(s, i, i + w.len(), seq![Sym::T(TokM::Bare(w))]),
{
    lemma_at_is_char(s, i, w, 0);
    assert forall|k: int| i + 1 <= k < i + w.len() implies is_id_end_spec(#[trigger] s[k]) by {
        lemma_at_is_char(s, i, w, k - i);
    }
    lemma_bare_end_at(s, i + 1, i + w.len());
    let e = i + w.len();
    let it = ItemM::Real(TokM::Bare(w), i, e);
    assert(s.subrange(i, e) == w);
    assert(lex_step(s, i) == Ok::<(Option<ItemM>, int), ErrM>((Some(it), e)));
    lemma_lx_step(s, i, Some(it), e);
    assert(syms(opt_seq(Some(it))) =~= seq![Sym::T(TokM::Bare(w))]);
}

/// `digits_end` over a literal embedded at `i` of `s` stops where it stops
/// in the literal, when no digit follows the literal.
proof fn lemma_digits_end_shift(s: Seq<char>, i: int, raw: Seq<char>, k: int)
    requires
        at_is(s, i, raw),
        0 <= k <= raw.len(),
        !is_digit(at(s, i + raw.len())),
    ensures
        digits_end(s, i + k) == i + digits_end(raw, k),
    decreases raw.len() - k,
{
    if k < raw.len() {
        lemma_at_is_char(s, i, raw, k);
        if is_digit(raw[k]) {
            lemma_digits_end_shift(s, i, raw, k + 1);
        }
    }
}

/// A valid number literal lexes to one number token when nothing that
/// could extend it follows.
pub proof fn lemma_lx_number(s: Seq<char>, i: int, raw: Seq<char>)
    requires
        at_is(s, i, raw),
        valid_literal(raw),
        !is_digit(at(s, i + raw.len())),
        at(s, i + raw.len()) != '.',
        at(s, i + raw.len()) != 'e',
        at(s, i + raw.len()) != 'E',
    ensures
        lx(s, i, i + raw.len(), seq![Sym::T(TokM::Number(raw))]),
{
    let n = raw.len() as int;
    assert forall|k: int| 0 <= k <= n implies #[trigger] at(s, i + k) == (if k < n { at(raw, k) } else { at(s, i + n) }) by {
        if k < n {
            lemma_at_is_char(s, i, raw, k);
        }
    }
    assert(n > 0) by {
        if n == 0 {
            assert(at(raw, 0) == '\0');
        }
    }
    let i0 = if at(raw, 0) == '-' { 1int } else { 0int };
    assert(at(s, i) == at(raw, 0));
    assert(i0 < n);
    assert(at(s, i + i0) == at(raw, i0));
    if at(raw, i0) != '0' {
        lemma_digits_end_shift(s, i, raw, i0 + 1);
        lemma_digits_end(raw, i0 + 1);
    }
    let i1 = if at(raw, i0) == '0' { i0 + 1 } else { digits_end(raw, i0 + 1) };
    assert(i1 <= n);
    assert(at(s, i + i1) == (if i1 < n { at(raw, i1) } else { at(s, i + n) }));
    if at(raw, i1) == '.' {
        assert(i1 < n);
        assert(at(s, i + i1 + 1) == (if i1 + 1 < n { at(raw, i1 + 1) } else { at(s, i + n) }));
        lemma_digits_end_shift(s, i, raw, i1 + 1);
        lemma_digits_end(raw, i1 + 1);
    }
    let i2 = if at(raw, i1) == '.' { digits_end(raw, i1 + 1) } else { i1 };
    assert(i2 <= n);
    assert(at(s, i + i2) == (if i2 < n { at(raw, i2) } else { at(s, i + n) }));
    if at(raw, i2) == 'e' || at(raw, i2) == 'E' {
        assert(i2 < n);
        assert(at(s, i + i2 + 1) == (if i2 + 1 < n { at(raw, i2 + 1) } else { at(s, i + n) }));
        let j = if at(raw, i2 + 1) == '+' || at(raw, i2 + 1) == '-' { i2 + 2 } else { i2 + 1 };
        assert(j <= n);
        assert(at(s, i + j) == (if j < n { at(raw, j) } else { at(s, i + n) }));
        lemma_digits_end_shift(s, i, raw, j);
    }
    assert(number_end(s, i) == Ok::<int, ErrM>(i + n));
    lemma_lx_number_step(s, i, raw);
}

proof fn lemma_lx_number_step(s: Seq<char>, i: int, raw: Seq<char>)
    requires
        at_is(s, i, raw),
        valid_literal(raw),
        raw.len() > 0,
        number_end(s, i) == Ok::<int, ErrM>(i + raw.len()),
    ensures
        lx(s, i, i + raw.len(), seq![Sym::T(TokM::Number(raw))]),
{
    let e = i + raw.len();
    lemma_at_is_char(s, i, raw, 0);
    if raw[0] == '-' {
        assert(is_digit(at(raw, 1)));
        lemma_at_is_char(s, i, raw, 1);
    }
    assert(is_digit(raw[0]) || raw[0] == '-') by {
        if raw[0] != '-' {
            assert(at(raw, 0) == '0' || ('1' <= at(raw, 0) && at(raw, 0) <= '9'));
        }
    }
    let it = ItemM::Real(TokM::Number(raw), i, e);
    assert(s.subrange(i, e) == raw);
    assert(lex_step(s, i) == Ok::<(Option<ItemM>, int), ErrM>((Some(it), e)));
    lemma_lx_step(s, i, Some(it), e);
    assert(syms(opt_seq(Some(it))) =~= seq![Sym::T(TokM::Number(raw))]);
}

pub open spec fn kind_of(q: Quote) -> QuoteKind {
    match q {
        Quote::Double => QuoteKind::Double,
        Quote::Single => QuoteKind::Single,
    }
}

/// A quoted string the writer wrote lexes to one string token holding
/// exactly the text.
pub proof fn lemma_lx_quoted(s: Seq<char>, i: int, t: Seq<char>, q: Quote)
    requires
        at_is(s, i, w_quoted(t, q)),
    ensures
        lx(s, i, i + w_quoted(t, q).len(), seq![Sym::T(TokM::Str(t, kind_of(q)))]),
{
    let w = w_quoted(t, q);
    lemma_quoted_at(s, i, t, q);
    lemma_at_is_char(s, i, w, 0);
    let e = i + w.len();
    let it = ItemM::Real(TokM::Str(t, kind_of(q)), i, e);
    assert(lex_step(s, i) == Ok::<(Option<ItemM>, int), ErrM>((Some(it), e)));
    lemma_lx_step(s, i, Some(it), e);
    assert(syms(opt_seq(Some(it))) =~= seq![Sym::T(TokM::Str(t, kind_of(q)))]);
}

// ---------------------------------------------------------------------
// Trivia as the writer re-indents it.

/// The comment lines of a run of comment lines `q` (see
/// [`comment_lines`]), each written on a fresh line at depth `d`.
pub open spec fn wcl(q: Seq<char>, d: int, st: Style) -> Seq<char>
    decreases q.len(),
{
    if q.len() >= 2 && q[0] == '\n' && q[1] == '#' {
        let e = line_end(q, 1);
        if 1 < e <= q.len() {
            w_line(q.subrange(1, e), d, st) + wcl(q.subrange(e, q.len() as int), d, st)
        } else {
            Seq::empty()
        }
    } else {
        Seq::empty()
    }
}

/// The symbols of [`wcl`]: a line break and a comment per line.
pub open spec fn sy_cl(q: Seq<char>) -> Seq<Sym>
    decreases q.len(),
{
    if q.len() >= 2 && q[0] == '\n' && q[1] == '#' {
        let e = line_end(q, 1);
        if 1 < e <= q.len() {
            seq![Sym::N, Sym::C(trim(q.subrange(1, e)))] + sy_cl(q.subrange(e, q.len() as int))
        } else {
            Seq::empty()
        }
    } else {
        Seq::empty()
    }
}

pub open spec fn sy_prefix(p: Seq<char>) -> Seq<Sym> {
    if p.len() == 0 {
        Seq::empty()
    } else {
        seq![Sym::N] + sy_cl(p)
    }
}

pub open spec fn sy_break(p: Seq<char>) -> Seq<Sym> {
    sy_prefix(p) + seq![Sym::N]
}

pub open spec fn sy_soft(p: Seq<char>) -> Seq<Sym> {
    if p.len() == 0 {
        Seq::empty()
    } else {
        sy_break(p)
    }
}

proof fn lemma_w_lines_skip(p: Seq<char>, i: int, j: int, start: int, d: int, st: Style)
    requires
        0 <= i <= j <= p.len(),
        forall|k: int| i <= k < j ==> #[trigger] p[k] != '\n',
    ensures
        w_lines_from(p, i, start, d, st) == w_lines_from(p, j, start, d, st),
    decreases j - i,
{
    if i < j {
        lemma_w_lines_skip(p, i + 1, j, start, d, st);
    }
}

/// From a line start `k` (just after a line break), the lines of a run of
/// comment lines are written as [`wcl`] of the rest.
proof fn lemma_w_lines_cl(p: Seq<char>, k: int, d: int, st: Style)
    requires
        1 <= k,
        k - 1 <= p.len(),
        k - 1 < p.len() ==> p[k - 1] == '\n',
        comment_lines(p.subrange(k - 1, p.len() as int)),
    ensures
        w_lines_from(p, k, k, d, st) == wcl(p.subrange(k - 1, p.len() as int), d, st),
    decreases p.len() - k,
{
    let q = p.subrange(k - 1, p.len() as int);
    if q.len() == 0 {
        assert(wcl(q, d, st) == Seq::<char>::empty());
    } else {
        let e = line_end(q, 1);
        assert(q.len() >= 2 && q[0] == '\n' && q[1] == '#' && 1 < e <= q.len());
        lemma_line_end(q, 1);
        let e2 = k - 1 + e;
        assert forall|m: int| k <= m < e2 implies #[trigger] p[m] != '\n' by {
            assert(q[m - k + 1] == p[m]);
            assert(!is_line_break(q[m - k + 1]));
        }
        lemma_w_lines_skip(p, k, e2, k, d, st);
        let rest = q.subrange(e, q.len() as int);
        assert(rest =~= p.subrange(e2, p.len() as int));
        assert(q.subrange(1, e) =~= p.subrange(k, e2));
        if e2 < p.len() {
            assert(p[e2] == q[e]);
            assert(rest.len() > 0);
            assert(comment_lines(rest));
            assert(rest[0] == '\n');
            lemma_w_lines_cl(p, e2 + 1, d, st);
        } else {
            assert(rest.len() == 0);
            assert(wcl(rest, d, st) == Seq::<char>::empty());
            assert(w_line(q.subrange(1, e), d, st) + Seq::<char>::empty() =~= w_line(q.subrange(1, e), d, st));
        }
    }
}

/// A prefix made of comment lines is written as a line break, then its
/// comment lines.
pub proof fn lemma_w_prefix_cl(p: Seq<char>, d: int, st: Style)
    requires
        comment_lines(p),
    ensures
        w_prefix(p, d, st) == (if p.len() == 0 { Seq::<char>::empty() } else { seq!['\n'] + wcl(p, d, st) }),
{
    if p.len() > 0 {
        assert(p[0] == '\n');
        assert(p.subrange(0, p.len() as int) =~= p);
        lemma_w_lines_cl(p, 1, d, st);
        assert(trim(p.subrange(0, 0)) =~= Seq::<char>::empty());
        assert(w_line(p.subrange(0, 0), d, st) =~= seq!['\n']);
    }
}

/// A comment text stays one after trimming.
proof fn lemma_trim_comment(c: Seq<char>)
    requires
        is_comment_text(c),
    ensures
        is_comment_text(trim(c)),
        trim(c).len() > 0,
{
    assert(!is_ws_spec(c[0]));
    assert(ws_skip(c, 0) == 0);
    lemma_ws_back(c, 0, c.len() as int);
    let b = ws_back(c, 0, c.len() as int);
    assert(b >= 1) by {
        lemma_ws_back_stops(c, c.len() as int);
    }
    assert forall|k: int| 0 <= k < trim(c).len() implies !is_line_break(#[trigger] trim(c)[k]) by {
        assert(trim(c)[k] == c[k]);
    }
}

/// `ws_back` never steps back over a non-blank character.
proof fn lemma_ws_back_stops(c: Seq<char>, j: int)
    requires
        c.len() > 0,
        !is_ws_spec(c[0]),
        1 <= j <= c.len(),
    ensures
        ws_back(c, 0, j) >= 1,
    decreases j,
{
    if j > 1 && is_ws_spec(c[j - 1]) {
        lemma_ws_back_stops(c, j - 1);
    }
}

/// The indentation lexes to nothing.
pub proof fn lemma_lx_ind(s: Seq<char>, i: int, d: int, st: Style)
    requires
        at_is(s, i, ind(st, d)),
    ensures
        lx(s, i, i + ind(st, d).len(), Seq::empty()),
{
    let w = ind(st, d);
    assert forall|k: int| 0 <= k < w.len() implies (#[trigger] w[k] == ' ' || w[k] == '\t') by {
        assert(w[k] == indent_char(st.eff_indent().ch));
    }
    lemma_lx_blanks(s, i, w);
}

/// Splits a window in two.
pub proof fn lemma_at_is_split(s: Seq<char>, i: int, a: Seq<char>, b: Seq<char>)
    requires
        at_is(s, i, a + b),
    ensures
        at_is(s, i, a),
        at_is(s, i + a.len(), b),
{
    assert(s.subrange(i, i + a.len()) =~= a) by {
        assert forall|k: int| 0 <= k < a.len() implies s.subrange(i, i + a.len())[k] == a[k] by {
            lemma_at_is_char(s, i, a + b, k);
        }
    }
    assert(s.subrange(i + a.len(), i + a.len() + b.len()) =~= b) by {
        assert forall|k: int| 0 <= k < b.len() implies s.subrange(i + a.len(), i + a.len() + b.len())[k] == b[k] by {
            lemma_at_is_char(s, i, a + b, a.len() + k);
        }
    }
}

/// One comment line: a line break, the indentation and the comment.
proof fn lemma_lx_wline(s: Seq<char>, i: int, c: Seq<char>, d: int, st: Style)
    requires
        is_comment_text(c),
        at_is(s, i, w_line(c, d, st)),
        i + w_line(c, d, st).len() == s.len() || is_line_break(s[i + w_line(c, d, st).len()]),
    ensures
        lx(s, i, i + w_line(c, d, st).len(), seq![Sym::N, Sym::C(trim(c))]),
{
    lemma_trim_comment(c);
    let t = trim(c);
    let w = w_line(c, d, st);
    assert(w =~= seq!['\n'] + ind(st, d) + t);
    lemma_at_is_split(s, i, seq!['\n'] + ind(st, d), t);
    lemma_at_is_split(s, i, seq!['\n'], ind(st, d));
    lemma_at_is_char(s, i, w, 0);
    lemma_lx_nl(s, i);
    lemma_lx_ind(s, i + 1, d, st);
    let j = i + 1 + ind(st, d).len();
    lemma_lx_comment(s, j, t);
    lemma_lx_trans(s, i, i + 1, j, seq![Sym::N], Seq::empty());
    lemma_lx_trans(s, i, j, j + t.len(), seq![Sym::N] + Seq::empty(), seq![Sym::C(t)]);
    assert(seq![Sym::N] + Seq::<Sym>::empty() + seq![Sym::C(t)] =~= seq![Sym::N, Sym::C(t)]);
}

/// The comment lines of a run of comment lines.
pub proof fn lemma_lx_wcl(s: Seq<char>, i: int, q: Seq<char>, d: int, st: Style)
    requires
        comment_lines(q),
        at_is(s, i, wcl(q, d, st)),
        i + wcl(q, d, st).len() == s.len() || is_line_break(s[i + wcl(q, d, st).len()]),
    ensures
        lx(s, i, i + wcl(q, d, st).len(), sy_cl(q)),
    decreases q.len(),
{
    if q.len() == 0 {
        lemma_lx_empty(s, i);
    } else {
        let e = line_end(q, 1);
        lemma_line_end(q, 1);
        let c = q.subrange(1, e);
        let rest = q.subrange(e, q.len() as int);
        assert(is_comment_text(c)) by {
            assert forall|k: int| 0 <= k < c.len() implies !is_line_break(#[trigger] c[k]) by {
                assert(c[k] == q[1 + k]);
            }
        }
        let wl = w_line(c, d, st);
        let wr = wcl(rest, d, st);
        assert(wcl(q, d, st) == wl + wr);
        lemma_at_is_split(s, i, wl, wr);
        if wr.len() > 0 {
            assert(rest.len() > 0);
            assert(wr[0] == '\n') by {
                let e2 = line_end(rest, 1);
                assert(wr == w_line(rest.subrange(1, e2), d, st) + wcl(rest.subrange(e2, rest.len() as int), d, st));
            }
            lemma_at_is_char(s, i + wl.len(), wr, 0);
        }
        lemma_lx_wline(s, i, c, d, st);
        lemma_lx_wcl(s, i + wl.len(), rest, d, st);
        lemma_lx_trans(s, i, i + wl.len(), i + wl.len() + wr.len(), seq![Sym::N, Sym::C(trim(c))], sy_cl(rest));
    }
}

/// A prefix of comment lines.
pub proof fn lemma_lx_prefix(s: Seq<char>, i: int, p: Seq<char>, d: int, st: Style)
    requires
        comment_lines(p),
        at_is(s, i, w_prefix(p, d, st)),
        i + w_prefix(p, d, st).len() == s.len() || is_line_break(s[i + w_prefix(p, d, st).len()]),
    ensures
        lx(s, i, i + w_prefix(p, d, st).len(), sy_prefix(p)),
{
    lemma_w_prefix_cl(p, d, st);
    if p.len() == 0 {
        lemma_lx_empty(s, i);
    } else {
        lemma_at_is_split(s, i, seq!['\n'], wcl(p, d, st));
        lemma_at_is_char(s, i, seq!['\n'], 0);
        lemma_lx_nl(s, i);
        lemma_lx_wcl(s, i + 1, p, d, st);
        lemma_lx_trans(s, i, i + 1, i + w_prefix(p, d, st).len(), seq![Sym::N], sy_cl(p));
    }
}

/// A prefix, then a fresh indented line.
pub proof fn lemma_lx_break(s: Seq<char>, i: int, p: Seq<char>, d: int, st: Style)
    requires
        comment_lines(p),
        at_is(s, i, w_break(p, d, st)),
    ensures
        lx(s, i, i + w_break(p, d, st).len(), sy_break(p)),
{
    let wp = w_prefix(p, d, st);
    assert(w_break(p, d, st) == wp + seq!['\n'] + ind(st, d));
    lemma_at_is_split(s, i, wp + seq!['\n'], ind(st, d));
    lemma_at_is_split(s, i, wp, seq!['\n']);
    lemma_at_is_char(s, i + wp.len(), seq!['\n'], 0);
    lemma_lx_prefix(s, i, p, d, st);
    lemma_lx_nl(s, i + wp.len());
    lemma_lx_ind(s, i + wp.len() + 1, d, st);
    lemma_lx_trans(s, i, i + wp.len(), i + wp.len() + 1, sy_prefix(p), seq![Sym::N]);
    lemma_lx_trans(s, i, i + wp.len() + 1, i + w_break(p, d, st).len(), sy_break(p), Seq::empty());
    assert(sy_break(p) + Seq::<Sym>::empty() =~= sy_break(p));
}

/// Between a separator and its value.
pub proof fn lemma_lx_soft(s: Seq<char>, i: int, p: Seq<char>, d: int, st: Style)
    requires
        comment_lines(p),
        at_is(s, i, w_soft(p, d, st)),
    ensures
        lx(s, i, i + w_soft(p, d, st).len(), sy_soft(p)),
{
    if p.len() == 0 {
        lemma_at_is_char(s, i, seq![' '], 0);
        lemma_lx_blank(s, i);
    } else {
        assert(w_soft(p, d, st) == w_break(p, d, st));
        lemma_lx_break(s, i, p, d, st);
    }
}

// ---------------------------------------------------------------------
// Values as the writer writes them.

/// A string value the style writes as verbatim fragments.
pub open spec fn is_vw(n: NodeM, st: Style) -> bool {
    n.value matches ValueM::Str(t) && st.eff_verbatim_strings() && t.contains('\n')
}

/// A key text the style writes bare.
pub open spec fn bare_written(text: Seq<char>, st: Style) -> bool {
    st.eff_key_style() == KeyStyle::Bare && is_valid_bare_spec(text)
}

pub open spec fn key_text(key: NodeM) -> Seq<char> {
    match key.value {
        ValueM::Str(s) => s,
        _ => Seq::empty(),
    }
}

/// The token the writer's key text reads back as.
pub open spec fn key_tok(key: NodeM, st: Style) -> TokM {
    let text = key_text(key);
    match st.eff_key_style() {
        KeyStyle::Bare => if is_valid_bare_spec(text) {
            TokM::Bare(text)
        } else {
            TokM::Str(text, kind_of(st.eff_value_quote()))
        },
        KeyStyle::Double => TokM::Str(text, QuoteKind::Double),
        KeyStyle::Single => TokM::Str(text, QuoteKind::Single),
    }
}

pub open spec fn sep_tok(st: Style) -> TokM {
    match st.eff_separator() {
        Separator::Colon => TokM::Colon,
        Separator::Equals => TokM::Equals,
    }
}

pub open spec fn sy_comma(st: Style, is_last: bool) -> Seq<Sym> {
    if w_comma(st, is_last).len() > 0 {
        seq![Sym::T(TokM::Comma)]
    } else {
        Seq::empty()
    }
}

/// The symbols of [`w_verbatim_from`]: one fragment token per line, with
/// a line break before each one but the first.
pub open spec fn sy_verb_from(t: Seq<char>, i: int, start: int, first: bool) -> Seq<Sym>
    decreases t.len() - i,
{
    let lead = if first { Seq::empty() } else { seq![Sym::N] };
    if i < 0 || i >= t.len() {
        lead + seq![Sym::T(TokM::Verbatim(t.subrange(start, t.len() as int)))]
    } else if t[i] == '\n' {
        lead + seq![Sym::T(TokM::Verbatim(t.subrange(start, i)))] + sy_verb_from(t, i + 1, i + 1, false)
    } else {
        sy_verb_from(t, i + 1, start, first)
    }
}

pub open spec fn sy_string(t: Seq<char>, st: Style) -> Seq<Sym> {
    if st.eff_verbatim_strings() && t.contains('\n') {
        sy_verb_from(t, 0, 0, true)
    } else {
        seq![Sym::T(TokM::Str(t, kind_of(st.eff_value_quote())))]
    }
}

/// The symbols the writer's text for a value lexes to.
pub open spec fn sy_value(n: NodeM, st: Style) -> Seq<Sym>
    decreases n, 0int,
{
    match n.value {
        ValueM::Null => seq![Sym::T(TokM::Bare("null"@))],
        ValueM::Bool(b) => seq![Sym::T(TokM::Bare(if b { "true"@ } else { "false"@ }))],
        ValueM::Number(raw) => seq![Sym::T(TokM::Number(raw))],
        ValueM::Str(t) => sy_string(t, st),
        ValueM::Array { items, trailing } => seq![Sym::T(TokM::LBracket)] + if items.len() == 0 && trim(trailing).len()
            == 0 {
            seq![Sym::T(TokM::RBracket)]
        } else {
            sy_items_from(items, 0, st) + sy_break(trailing) + seq![Sym::T(TokM::RBracket)]
        },
        ValueM::Object { entries, trailing } => seq![Sym::T(TokM::LBrace)] + if entries.len() == 0 && trim(trailing).len()
            == 0 {
            seq![Sym::T(TokM::RBrace)]
        } else {
            sy_entries_from(entries, 0, st) + sy_break(trailing) + seq![Sym::T(TokM::RBrace)]
        },
    }
}

pub open spec fn sy_items_from(items: Seq<NodeM>, i: int, st: Style) -> Seq<Sym>
    decreases items, items.len() - i,
{
    if i < 0 || i >= items.len() {
        Seq::empty()
    } else {
        sy_break(items[i].prefix) + sy_value(items[i], st) + sy_comma(st, i + 1 == items.len()) + sy_items_from(
            items,
            i + 1,
            st,
        )
    }
}

/// An entry after its leading break: key, separator, value, comma.
pub open spec fn sy_entry(e: EntryM, is_last: bool, st: Style) -> Seq<Sym>
    decreases e, 0int,
{
    seq![Sym::T(key_tok(e.key, st)), Sym::T(sep_tok(st))] + sy_soft(e.value.prefix) + sy_value(e.value, st) + sy_comma(
        st,
        is_last,
    )
}

pub open spec fn sy_entries_from(entries: Seq<EntryM>, i: int, st: Style) -> Seq<Sym>
    decreases entries, entries.len() - i,
{
    if i < 0 || i >= entries.len() {
        Seq::empty()
    } else {
        sy_break(entries[i].key.prefix) + sy_entry(entries[i], i + 1 == entries.len(), st) + sy_entries_from(
            entries,
            i + 1,
            st,
        )
    }
}

/// What a node needs for its text to lex back: its trivia are comment
/// lines (as the parser makes them), its numbers are literals, its keys
/// are strings that do not read as a negative number, and no verbatim
/// string holds a carriage return or is followed by a comma.
pub open spec fn lex_ok(n: NodeM, st: Style) -> bool
    decreases n,
{
    &&& comment_lines(n.prefix)
    &&& match n.value {
        ValueM::Number(raw) => valid_literal(raw),
        ValueM::Str(t) => is_vw(n, st) ==> !t.contains('\r'),
        ValueM::Array { items, trailing } => comment_lines(trailing) && forall|k: int|
            0 <= k < items.len() ==> lex_ok(#[trigger] items[k], st) && (is_vw(items[k], st) ==> w_comma(
                st,
                k + 1 == items.len(),
            ).len() == 0),
        ValueM::Object { entries, trailing } => comment_lines(trailing) && forall|k: int|
            0 <= k < entries.len() ==> entry_lex_ok(#[trigger] entries[k], k + 1 == entries.len(), st),
        _ => true,
    }
}

/// See [`lex_ok`].
pub open spec fn entry_lex_ok(e: EntryM, is_last: bool, st: Style) -> bool
    decreases e,
{
    &&& comment_lines(e.key.prefix)
    &&& e.key.value is Str
    &&& !(bare_written(key_text(e.key), st) && key_text(e.key).len() >= 2 && key_text(e.key)[0] == '-' && is_digit(
        key_text(e.key)[1],
    ))
    &&& lex_ok(e.value, st)
    &&& (is_vw(e.value, st) ==> w_comma(st, is_last).len() == 0)
}

/// An entry after its leading break, with its value at depth `d`.
pub open spec fn w_entry(e: EntryM, is_last: bool, d: int, st: Style) -> Seq<char> {
    w_key(e.key, st) + w_sep(st) + w_soft(e.value.prefix, d, st) + w_value(e.value, d, st) + w_comma(st, is_last)
}

/// What may follow a value's text: a line break, or a comma unless the
/// value is written as verbatim fragments.
pub open spec fn vfollow(s: Seq<char>, j: int, n: NodeM, st: Style) -> bool {
    at(s, j) == '\n' || (at(s, j) == ',' && !is_vw(n, st))
}

pub proof fn lemma_break_first(p: Seq<char>, d: int, st: Style)
    requires
        comment_lines(p),
    ensures
        w_break(p, d, st).len() > 0,
        w_break(p, d, st)[0] == '\n',
{
    lemma_w_prefix_cl(p, d, st);
    let wp = w_prefix(p, d, st);
    assert(w_break(p, d, st) == wp + seq!['\n'] + ind(st, d));
    if p.len() > 0 {
        assert(wp[0] == '\n');
    }
}

proof fn lemma_lx_key(s: Seq<char>, i: int, key: NodeM, st: Style)
    requires
        key.value is Str,
        !(bare_written(key_text(key), st) && key_text(key).len() >= 2 && key_text(key)[0] == '-' && is_digit(
            key_text(key)[1],
        )),
        at_is(s, i, w_key(key, st)),
        at(s, i + w_key(key, st).len()) == ':' || at(s, i + w_key(key, st).len()) == ' ',
    ensures
        lx(s, i, i + w_key(key, st).len(), seq![Sym::T(key_tok(key, st))]),
{
    let text = key_text(key);
    match st.eff_key_style() {
        KeyStyle::Bare => {
            if is_valid_bare_spec(text) {
                if text.len() >= 2 {
                    lemma_at_is_char(s, i, text, 1);
                }
                lemma_lx_bare(s, i, text);
            } else {
                lemma_lx_quoted(s, i, text, st.eff_value_quote());
            }
        },
        KeyStyle::Double => lemma_lx_quoted(s, i, text, Quote::Double),
        KeyStyle::Single => lemma_lx_quoted(s, i, text, Quote::Single),
    }
}

proof fn lemma_lx_sep(s: Seq<char>, i: int, st: Style)
    requires
        at_is(s, i, w_sep(st)),
    ensures
        lx(s, i, i + w_sep(st).len(), seq![Sym::T(sep_tok(st))]),
{
    match st.eff_separator() {
        Separator::Colon => {
            lemma_at_is_char(s, i, w_sep(st), 0);
            lemma_lx_punct(s, i);
        },
        Separator::Equals => {
            lemma_at_is_char(s, i, w_sep(st), 0);
            lemma_at_is_char(s, i, w_sep(st), 1);
            lemma_lx_blank(s, i);
            lemma_lx_punct(s, i + 1);
            lemma_lx_trans(s, i, i + 1, i + 2, Seq::empty(), seq![Sym::T(TokM::Equals)]);
            assert(Seq::<Sym>::empty() + seq![Sym::T(TokM::Equals)] =~= seq![Sym::T(TokM::Equals)]);
        },
    }
}

proof fn lemma_lx_comma(s: Seq<char>, i: int, st: Style, is_last: bool)
    requires
        at_is(s, i, w_comma(st, is_last)),
    ensures
        lx(s, i, i + w_comma(st, is_last).len(), sy_comma(st, is_last)),
{
    if w_comma(st, is_last).len() > 0 {
        lemma_at_is_char(s, i, w_comma(st, is_last), 0);
        lemma_lx_punct(s, i);
    } else {
        lemma_lx_empty(s, i);
    }
}

/// A continuation fragment starts with a line break.
proof fn lemma_verb_first(t: Seq<char>, i: int, start: int, d: int, st: Style)
    ensures
        w_verbatim_from(t, i, start, false, d, st).len() > 0,
        w_verbatim_from(t, i, start, false, d, st)[0] == '\n',
    decreases t.len() - i,
{
    if 0 <= i < t.len() && t[i] != '\n' {
        lemma_verb_first(t, i + 1, start, d, st);
    }
}

proof fn lemma_lx_verb(s: Seq<char>, i: int, t: Seq<char>, k: int, start: int, first: bool, d: int, st: Style)
    requires
        0 <= start <= k <= t.len(),
        forall|m: int| start <= m < k ==> #[trigger] t[m] != '\n',
        forall|m: int| 0 <= m < t.len() ==> #[trigger] t[m] != '\r',
        at_is(s, i, w_verbatim_from(t, k, start, first, d, st)),
        i + w_verbatim_from(t, k, start, first, d, st).len() == s.len() || is_line_break(
            s[i + w_verbatim_from(t, k, start, first, d, st).len()],
        ),
    ensures
        lx(s, i, i + w_verbatim_from(t, k, start, first, d, st).len(), sy_verb_from(t, k, start, first)),
    decreases t.len() - k,
{
    let lead = if first { Seq::<char>::empty() } else { seq!['\n'] + ind(st, d) };
    let slead = if first { Seq::<Sym>::empty() } else { seq![Sym::N] };
    let w = w_verbatim_from(t, k, start, first, d, st);
    if k < t.len() && t[k] != '\n' {
        lemma_lx_verb(s, i, t, k + 1, start, first, d, st);
    } else {
        let end = if k >= t.len() { t.len() as int } else { k };
        let seg = t.subrange(start, end);
        let rest = if k >= t.len() { Seq::<char>::empty() } else { w_verbatim_from(t, k + 1, k + 1, false, d, st) };
        let srest = if k >= t.len() { Seq::<Sym>::empty() } else { sy_verb_from(t, k + 1, k + 1, false) };
        assert(w =~= lead + seq!['|'] + seg + rest);
        assert(sy_verb_from(t, k, start, first) =~= slead + seq![Sym::T(TokM::Verbatim(seg))] + srest);
        lemma_at_is_split(s, i, lead + seq!['|'] + seg, rest);
        lemma_at_is_split(s, i, lead + seq!['|'], seg);
        lemma_at_is_split(s, i, lead, seq!['|']);
        // the lead
        if first {
            lemma_lx_empty(s, i);
        } else {
            lemma_at_is_split(s, i, seq!['\n'], ind(st, d));
            lemma_at_is_char(s, i, seq!['\n'], 0);
            lemma_lx_nl(s, i);
            lemma_lx_ind(s, i + 1, d, st);
            lemma_lx_trans(s, i, i + 1, i + lead.len(), seq![Sym::N], Seq::empty());
            assert(seq![Sym::N] + Seq::<Sym>::empty() =~= slead);
        }
        // the fragment
        let f = i + lead.len();
        lemma_at_is_char(s, f, seq!['|'], 0);
        assert forall|m: int| 0 <= m < seg.len() implies !is_line_break(#[trigger] seg[m]) by {
            assert(seg[m] == t[start + m]);
        }
        if k < t.len() {
            lemma_verb_first(t, k + 1, k + 1, d, st);
            lemma_at_is_char(s, f + 1 + seg.len(), rest, 0);
        } else {
            assert(rest.len() == 0);
        }
        lemma_lx_fragment(s, f, seg);
        lemma_lx_trans(s, i, f, f + 1 + seg.len(), slead, seq![Sym::T(TokM::Verbatim(seg))]);
        // the rest
        if k < t.len() {
            lemma_lx_verb(s, f + 1 + seg.len(), t, k + 1, k + 1, false, d, st);
        } else {
            lemma_lx_empty(s, f + 1 + seg.len());
        }
        lemma_lx_trans(
            s,
            i,
            f + 1 + seg.len(),
            i + w.len(),
            slead + seq![Sym::T(TokM::Verbatim(seg))],
            srest,
        );
    }
}

proof fn lemma_lx_string(s: Seq<char>, i: int, t: Seq<char>, d: int, st: Style)
    requires
        (st.eff_verbatim_strings() && t.contains('\n')) ==> !t.contains('\r'),
        at_is(s, i, w_string(t, d, st)),
        at(s, i + w_string(t, d, st).len()) == '\n' || (at(s, i + w_string(t, d, st).len()) == ',' && !(
        st.eff_verbatim_strings() && t.contains('\n'))),
    ensures
        lx(s, i, i + w_string(t, d, st).len(), sy_string(t, st)),
{
    if st.eff_verbatim_strings() && t.contains('\n') {
        let w = w_string(t, d, st);
        assert(i + w.len() < s.len());
        lemma_lx_verb(s, i, t, 0, 0, true, d, st);
    } else {
        lemma_lx_quoted(s, i, t, st.eff_value_quote());
    }
}

/// The writer's text for a value lexes to [`sy_value`].
pub proof fn lemma_lx_value(s: Seq<char>, i: int, n: NodeM, d: int, st: Style)
    requires
        lex_ok(n, st),
        at_is(s, i, w_value(n, d, st)),
        vfollow(s, i + w_value(n, d, st).len(), n, st),
    ensures
        lx(s, i, i + w_value(n, d, st).len(), sy_value(n, st)),
    decreases n, 2int,
{
    match n.value {
        ValueM::Null => {
            reveal_strlit("null");
            lemma_lx_bare(s, i, "null"@);
        },
        ValueM::Bool(b) => {
            if b {
                reveal_strlit("true");
                lemma_lx_bare(s, i, "true"@);
            } else {
                reveal_strlit("false");
                lemma_lx_bare(s, i, "false"@);
            }
        },
        ValueM::Number(raw) => {
            lemma_lx_number(s, i, raw);
        },
        ValueM::Str(t) => {
            lemma_lx_string(s, i, t, d, st);
        },
        ValueM::Array { .. } => {
            lemma_lx_array(s, i, n, d, st);
        },
        ValueM::Object { .. } => {
            lemma_lx_object(s, i, n, d, st);
        },
    }
}

proof fn lemma_lx_array(s: Seq<char>, i: int, n: NodeM, d: int, st: Style)
    requires
        n.value is Array,
        lex_ok(n, st),
        at_is(s, i, w_value(n, d, st)),
    ensures
        lx(s, i, i + w_value(n, d, st).len(), sy_value(n, st)),
    decreases n, 1int,
{
    let items = n.value->items;
    let trailing = n.value->Array_trailing;
    let w = w_value(n, d, st);
    lemma_at_is_char(s, i, w, 0);
    lemma_lx_punct(s, i);
    if items.len() == 0 && trim(trailing).len() == 0 {
        lemma_at_is_char(s, i, w, 1);
        lemma_lx_punct(s, i + 1);
        lemma_lx_trans(s, i, i + 1, i + 2, seq![Sym::T(TokM::LBracket)], seq![Sym::T(TokM::RBracket)]);
    } else {
        let wi = w_items_from(items, 0, d, st);
        let wb = w_break(trailing, d, st);
        assert(w =~= seq!['['] + wi + wb + seq![']']);
        lemma_at_is_split(s, i, seq!['['] + wi + wb, seq![']']);
        lemma_at_is_split(s, i, seq!['['] + wi, wb);
        lemma_at_is_split(s, i, seq!['['], wi);
        lemma_break_first(trailing, d, st);
        lemma_at_is_char(s, i + 1 + wi.len(), wb, 0);
        lemma_lx_items(s, i + 1, items, 0, d, st);
        lemma_lx_break(s, i + 1 + wi.len(), trailing, d, st);
        let j = i + 1 + wi.len() + wb.len();
        lemma_at_is_char(s, j, seq![']'], 0);
        lemma_lx_punct(s, j);
        let a = seq![Sym::T(TokM::LBracket)];
        let b = sy_items_from(items, 0, st);
        lemma_lx_trans(s, i, i + 1, i + 1 + wi.len(), a, b);
        lemma_lx_trans(s, i, i + 1 + wi.len(), j, a + b, sy_break(trailing));
        lemma_lx_trans(s, i, j, j + 1, a + b + sy_break(trailing), seq![Sym::T(TokM::RBracket)]);
        assert(a + b + sy_break(trailing) + seq![Sym::T(TokM::RBracket)] =~= sy_value(n, st));
    }
}

proof fn lemma_lx_object(s: Seq<char>, i: int, n: NodeM, d: int, st: Style)
    requires
        n.value is Object,
        lex_ok(n, st),
        at_is(s, i, w_value(n, d, st)),
    ensures
        lx(s, i, i + w_value(n, d, st).len(), sy_value(n, st)),
    decreases n, 1int,
{
    let entries = n.value->entries;
    let trailing = n.value->Object_trailing;
    let w = w_value(n, d, st);
    lemma_at_is_char(s, i, w, 0);
    lemma_lx_punct(s, i);
    if entries.len() == 0 && trim(trailing).len() == 0 {
        lemma_at_is_char(s, i, w, 1);
        lemma_lx_punct(s, i + 1);
        lemma_lx_trans(s, i, i + 1, i + 2, seq![Sym::T(TokM::LBrace)], seq![Sym::T(TokM::RBrace)]);
    } else {
        let we = w_entries_from(entries, 0, d, st);
        let wb = w_break(trailing, d, st);
        assert(w =~= seq!['{'] + we + wb + seq!['}']);
        lemma_at_is_split(s, i, seq!['{'] + we + wb, seq!['}']);
        lemma_at_is_split(s, i, seq!['{'] + we, wb);
        lemma_at_is_split(s, i, seq!['{'], we);
        lemma_break_first(trailing, d, st);
        lemma_at_is_char(s, i + 1 + we.len(), wb, 0);
        lemma_lx_entries(s, i + 1, entries, 0, d, st);
        lemma_lx_break(s, i + 1 + we.len(), trailing, d, st);
        let j = i + 1 + we.len() + wb.len();
        lemma_at_is_char(s, j, seq!['}'], 0);
        lemma_lx_punct(s, j);
        let a = seq![Sym::T(TokM::LBrace)];
        let b = sy_entries_from(entries, 0, st);
        lemma_lx_trans(s, i, i + 1, i + 1 + we.len(), a, b);
        lemma_lx_trans(s, i, i + 1 + we.len(), j, a + b, sy_break(trailing));
        lemma_lx_trans(s, i, j, j + 1, a + b + sy_break(trailing), seq![Sym::T(TokM::RBrace)]);
        assert(a + b + sy_break(trailing) + seq![Sym::T(TokM::RBrace)] =~= sy_value(n, st));
    }
}

/// The writer's text for array elements `k..` lexes to [`sy_items_from`].
pub proof fn lemma_lx_items(s: Seq<char>, i: int, items: Seq<NodeM>, k: int, d: int, st: Style)
    requires
        0 <= k <= items.len(),
        forall|m: int|
            0 <= m < items.len() ==> lex_ok(#[trigger] items[m], st) && (is_vw(items[m], st) ==> w_comma(
                st,
                m + 1 == items.len(),
            ).len() == 0),
        at_is(s, i, w_items_from(items, k, d, st)),
        at(s, i + w_items_from(items, k, d, st).len()) == '\n',
    ensures
        lx(s, i, i + w_items_from(items, k, d, st).len(), sy_items_from(items, k, st)),
    decreases items, items.len() - k,
{
    if k >= items.len() {
        lemma_lx_empty(s, i);
    } else {
        let it = items[k];
        let last = k + 1 == items.len();
        let b = w_break(it.prefix, d + 1, st);
        let v = w_value(it, d + 1, st);
        let c = w_comma(st, last);
        let r = w_items_from(items, k + 1, d, st);
        assert(w_items_from(items, k, d, st) == b + v + c + r);
        lemma_at_is_split(s, i, b + v + c, r);
        lemma_at_is_split(s, i, b + v, c);
        lemma_at_is_split(s, i, b, v);
        let j1 = i + b.len();
        let j2 = j1 + v.len();
        let j3 = j2 + c.len();
        let j4 = j3 + r.len();
        assert(lex_ok(it, st));
        lemma_lx_break(s, i, it.prefix, d + 1, st);
        if c.len() > 0 {
            lemma_at_is_char(s, j2, c, 0);
        } else if r.len() > 0 {
            lemma_break_first(items[k + 1].prefix, d + 1, st);
            assert(r == w_break(items[k + 1].prefix, d + 1, st) + w_value(items[k + 1], d + 1, st) + w_comma(
                st,
                k + 2 == items.len(),
            ) + w_items_from(items, k + 2, d, st));
            lemma_at_is_char(s, j3, r, 0);
        }
        lemma_lx_value(s, j1, it, d + 1, st);
        lemma_lx_comma(s, j2, st, last);
        lemma_lx_items(s, j3, items, k + 1, d, st);
        let sb = sy_break(it.prefix);
        let sv = sy_value(it, st);
        let sc = sy_comma(st, last);
        lemma_lx_trans(s, i, j1, j2, sb, sv);
        lemma_lx_trans(s, i, j2, j3, sb + sv, sc);
        lemma_lx_trans(s, i, j3, j4, sb + sv + sc, sy_items_from(items, k + 1, st));
    }
}

/// The writer's text for object entries `k..` lexes to [`sy_entries_from`].
pub proof fn lemma_lx_entries(s: Seq<char>, i: int, entries: Seq<EntryM>, k: int, d: int, st: Style)
    requires
        0 <= k <= entries.len(),
        forall|m: int| 0 <= m < entries.len() ==> entry_lex_ok(#[trigger] entries[m], m + 1 == entries.len(), st),
        at_is(s, i, w_entries_from(entries, k, d, st)),
        at(s, i + w_entries_from(entries, k, d, st).len()) == '\n',
    ensures
        lx(s, i, i + w_entries_from(entries, k, d, st).len(), sy_entries_from(entries, k, st)),
    decreases entries, entries.len() - k,
{
    if k >= entries.len() {
        lemma_lx_empty(s, i);
    } else {
        let e = entries[k];
        let last = k + 1 == entries.len();
        let b = w_break(e.key.prefix, d + 1, st);
        let we = w_entry(e, last, d + 1, st);
        let r = w_entries_from(entries, k + 1, d, st);
        lemma_w_entries_unfold(entries, k, d, st);
        lemma_at_is_split(s, i, b + we, r);
        lemma_at_is_split(s, i, b, we);
        let j1 = i + b.len();
        let j2 = j1 + we.len();
        let j3 = j2 + r.len();
        assert(entry_lex_ok(e, last, st));
        lemma_lx_break(s, i, e.key.prefix, d + 1, st);
        if r.len() > 0 {
            let e2 = entries[k + 1];
            assert(entry_lex_ok(e2, k + 2 == entries.len(), st));
            lemma_break_first(e2.key.prefix, d + 1, st);
            lemma_w_entries_unfold(entries, k + 1, d, st);
            lemma_at_is_char(s, j2, r, 0);
        }
        lemma_lx_entry(s, j1, e, last, d + 1, st);
        lemma_lx_entries(s, j2, entries, k + 1, d, st);
        let sb = sy_break(e.key.prefix);
        let se = sy_entry(e, last, st);
        lemma_lx_trans(s, i, j1, j2, sb, se);
        lemma_lx_trans(s, i, j2, j3, sb + se, sy_entries_from(entries, k + 1, st));
    }
}

proof fn lemma_w_entries_unfold(entries: Seq<EntryM>, k: int, d: int, st: Style)
    requires
        0 <= k < entries.len(),
    ensures
        w_entries_from(entries, k, d, st) =~= w_break(entries[k].key.prefix, d + 1, st) + w_entry(
            entries[k],
            k + 1 == entries.len(),
            d + 1,
            st,
        ) + w_entries_from(entries, k + 1, d, st),
{
}

/// One entry after its leading break.
pub proof fn lemma_lx_entry(s: Seq<char>, i: int, e: EntryM, is_last: bool, d: int, st: Style)
    requires
        entry_lex_ok(e, is_last, st),
        at_is(s, i, w_entry(e, is_last, d, st)),
        at(s, i + w_entry(e, is_last, d, st).len()) == '\n',
    ensures
        lx(s, i, i + w_entry(e, is_last, d, st).len(), sy_entry(e, is_last, st)),
    decreases e, 0int,
{
    let k = w_key(e.key, st);
    let sp = w_sep(st);
    let f = w_soft(e.value.prefix, d, st);
    let v = w_value(e.value, d, st);
    let c = w_comma(st, is_last);
    lemma_at_is_split(s, i, k + sp + f + v, c);
    lemma_at_is_split(s, i, k + sp + f, v);
    lemma_at_is_split(s, i, k + sp, f);
    lemma_at_is_split(s, i, k, sp);
    let j1 = i + k.len();
    let j2 = j1 + sp.len();
    let j3 = j2 + f.len();
    let j4 = j3 + v.len();
    let j5 = j4 + c.len();
    lemma_at_is_char(s, j1, sp, 0);
    lemma_lx_key(s, i, e.key, st);
    lemma_lx_sep(s, j1, st);
    assert(lex_ok(e.value, st));
    lemma_lx_soft(s, j2, e.value.prefix, d, st);
    if c.len() > 0 {
        lemma_at_is_char(s, j4, c, 0);
    }
    lemma_lx_value(s, j3, e.value, d, st);
    lemma_lx_comma(s, j4, st, is_last);
    let s1 = seq![Sym::T(key_tok(e.key, st))];
    let s2 = seq![Sym::T(sep_tok(st))];
    let s3 = sy_soft(e.value.prefix);
    let s4 = sy_value(e.value, st);
    let s5 = sy_comma(st, is_last);
    lemma_lx_trans(s, i, j1, j2, s1, s2);
    lemma_lx_trans(s, i, j2, j3, s1 + s2, s3);
    lemma_lx_trans(s, i, j3, j4, s1 + s2 + s3, s4);
    lemma_lx_trans(s, i, j4, j5, s1 + s2 + s3 + s4, s5);
    assert(s1 + s2 + s3 + s4 + s5 =~= sy_entry(e, is_last, st));
}

// ---------------------------------------------------------------------
// The parser's view: real tokens and the gap before each.

/// The gap before the next real token, so far: whether it holds a line
/// break, whether it holds an empty line, and whether the last symbol
/// was a line break.
pub struct Gap {
    pub nl: bool,
    pub blank: bool,
    pub last_nl: bool,
    /// Its comments, each after a line break.
    pub text: Seq<char>,
}

pub open spec fn gap0() -> Gap {
    Gap { nl: false, blank: false, last_nl: false, text: Seq::empty() }
}

pub open spec fn gap_step(g: Gap, x: Sym) -> Gap {
    match x {
        Sym::N => Gap { nl: true, blank: g.blank || g.last_nl, last_nl: true, text: g.text },
        Sym::C(t) => Gap { nl: g.nl, blank: g.blank, last_nl: false, text: g.text + seq!['\n'] + t },
        Sym::T(_) => gap0(),
    }
}

/// The gap after the symbols `sy`, starting from `g`.
pub open spec fn pend(sy: Seq<Sym>, g: Gap) -> Gap
    decreases sy.len(),
{
    if sy.len() == 0 {
        g
    } else {
        gap_step(pend(sy.drop_last(), g), sy.last())
    }
}

/// A real token and the gap before it.
pub struct TokGap {
    pub tok: TokM,
    pub nl: bool,
    pub blank: bool,
    pub prefix: Seq<char>,
}

/// The real tokens among `sy`, each with the gap before it.
pub open spec fn tf(sy: Seq<Sym>, g: Gap) -> Seq<TokGap>
    decreases sy.len(),
{
    if sy.len() == 0 {
        Seq::empty()
    } else {
        match sy.last() {
            Sym::T(t) => tf(sy.drop_last(), g).push(
                TokGap {
                    tok: t,
                    nl: pend(sy.drop_last(), g).nl,
                    blank: pend(sy.drop_last(), g).blank,
                    prefix: pend(sy.drop_last(), g).text,
                },
            ),
            _ => tf(sy.drop_last(), g),
        }
    }
}

pub proof fn lemma_tf_concat(a: Seq<Sym>, b: Seq<Sym>, g: Gap)
    ensures
        pend(a + b, g) == pend(b, pend(a, g)),
        tf(a + b, g) =~= tf(a, g) + tf(b, pend(a, g)),
    decreases b.len(),
{
    if b.len() == 0 {
        assert(a + b =~= a);
    } else {
        lemma_tf_concat(a, b.drop_last(), g);
        assert((a + b).drop_last() =~= a + b.drop_last());
        assert((a + b).last() == b.last());
    }
}

/// No real token among `sy`.
pub open spec fn no_tok(sy: Seq<Sym>) -> bool {
    forall|k: int| 0 <= k < sy.len() ==> !(#[trigger] sy[k] is T)
}

pub proof fn lemma_tf_no_tok(sy: Seq<Sym>, g: Gap)
    requires
        no_tok(sy),
    ensures
        tf(sy, g) == Seq::<TokGap>::empty(),
        g.blank ==> pend(sy, g).blank,
    decreases sy.len(),
{
    if sy.len() > 0 {
        assert(sy.last() == sy[sy.len() - 1]);
        assert(no_tok(sy.drop_last())) by {
            assert forall|k: int| 0 <= k < sy.drop_last().len() implies !(#[trigger] sy.drop_last()[k] is T) by {
                assert(sy.drop_last()[k] == sy[k]);
            }
        }
        lemma_tf_no_tok(sy.drop_last(), g);
    }
}

proof fn lemma_no_tok_cl(q: Seq<char>)
    ensures
        no_tok(sy_cl(q)),
        sy_cl(q).len() > 0 ==> sy_cl(q)[0] == Sym::N,
    decreases q.len(),
{
    if q.len() >= 2 && q[0] == '\n' && q[1] == '#' {
        let e = line_end(q, 1);
        if 1 < e <= q.len() {
            lemma_no_tok_cl(q.subrange(e, q.len() as int));
            let r = sy_cl(q.subrange(e, q.len() as int));
            assert forall|k: int| 0 <= k < sy_cl(q).len() implies !(#[trigger] sy_cl(q)[k] is T) by {
                if k >= 2 {
                    assert(sy_cl(q)[k] == r[k - 2]);
                }
            }
        }
    }
}

/// A break holds no token, ends in a line break, and, after a prefix of
/// comment lines, an empty line.
pub proof fn lemma_break_gap(p: Seq<char>, g: Gap)
    requires
        comment_lines(p),
    ensures
        no_tok(sy_break(p)),
        tf(sy_break(p), g) == Seq::<TokGap>::empty(),
        pend(sy_break(p), g).nl,
        p.len() > 0 ==> pend(sy_break(p), g).blank,
        no_tok(sy_soft(p)),
        tf(sy_soft(p), g) == Seq::<TokGap>::empty(),
{
    lemma_no_tok_cl(p);
    let b = sy_break(p);
    assert(no_tok(b)) by {
        assert forall|k: int| 0 <= k < b.len() implies !(#[trigger] b[k] is T) by {
            if p.len() > 0 && 1 <= k < 1 + sy_cl(p).len() {
                assert(b[k] == sy_cl(p)[k - 1]);
            }
        }
    }
    lemma_tf_no_tok(b, g);
    assert(b.last() == Sym::N);
    assert(b.drop_last() == sy_prefix(p));
    if p.len() > 0 {
        let nn = seq![Sym::N, Sym::N];
        let rest = if sy_cl(p).len() > 0 { sy_cl(p).drop_first() + seq![Sym::N] } else { Seq::<Sym>::empty() };
        assert(b =~= nn + rest);
        lemma_tf_concat(nn, rest, g);
        assert(seq![Sym::N, Sym::N].drop_last() =~= seq![Sym::N]);
        assert(seq![Sym::N].drop_last() =~= Seq::<Sym>::empty());
        assert(pend(nn, g).blank);
        assert(no_tok(rest)) by {
            assert forall|k: int| 0 <= k < rest.len() implies !(#[trigger] rest[k] is T) by {
                assert(rest[k] == b[k + 2]);
            }
        }
        lemma_tf_no_tok(rest, pend(nn, g));
    }
    if p.len() == 0 {
        assert(sy_soft(p) =~= Seq::<Sym>::empty());
        lemma_tf_no_tok(sy_soft(p), g);
    } else {
        lemma_tf_no_tok(sy_soft(p), g);
    }
}

pub proof fn lemma_tf_single(x: TokM, g: Gap)
    ensures
        tf(seq![Sym::T(x)], g) == seq![TokGap { tok: x, nl: g.nl, blank: g.blank, prefix: g.text }],
        pend(seq![Sym::T(x)], g) == gap0(),
{
    let e = seq![Sym::T(x)].drop_last();
    assert(e =~= Seq::<Sym>::empty());
    assert(tf(e, g) == Seq::<TokGap>::empty());
    assert(pend(e, g) == g);
    assert(seq![Sym::T(x)].last() == Sym::T(x));
    assert(Seq::<TokGap>::empty().push(TokGap { tok: x, nl: g.nl, blank: g.blank, prefix: g.text }) =~= seq![
        TokGap { tok: x, nl: g.nl, blank: g.blank, prefix: g.text },
    ]);
}

// ---------------------------------------------------------------------
// Verbatim strings, line by line.

/// The lines of `t` (scan at `i`, current line from `start`).
pub open spec fn segs_from(t: Seq<char>, i: int, start: int) -> Seq<Seq<char>>
    decreases t.len() - i,
{
    if i < 0 || i >= t.len() {
        seq![t.subrange(start, t.len() as int)]
    } else if t[i] == '\n' {
        seq![t.subrange(start, i)] + segs_from(t, i + 1, i + 1)
    } else {
        segs_from(t, i + 1, start)
    }
}

/// Lines joined with line breaks.
pub open spec fn join(l: Seq<Seq<char>>) -> Seq<char>
    decreases l.len(),
{
    if l.len() == 0 {
        Seq::empty()
    } else if l.len() == 1 {
        l[0]
    } else {
        join(l.drop_last()) + seq!['\n'] + l.last()
    }
}

proof fn lemma_join_cons(x: Seq<char>, l: Seq<Seq<char>>)
    requires
        l.len() > 0,
    ensures
        join(seq![x] + l) == x + seq!['\n'] + join(l),
    decreases l.len(),
{
    let xl = seq![x] + l;
    assert(xl.last() == l.last());
    if l.len() == 1 {
        assert(xl.drop_last() =~= seq![x]);
        assert(join(seq![x]) == x);
        assert(join(l) == l[0]);
        assert(l.last() == l[0]);
    } else {
        lemma_join_cons(x, l.drop_last());
        assert(xl.drop_last() =~= seq![x] + l.drop_last());
        assert(join(xl) == join(xl.drop_last()) + seq!['\n'] + xl.last());
        assert(join(l) == join(l.drop_last()) + seq!['\n'] + l.last());
        assert(x + seq!['\n'] + join(l.drop_last()) + seq!['\n'] + l.last() =~= x + seq!['\n'] + (join(
            l.drop_last(),
        ) + seq!['\n'] + l.last()));
    }
}

/// Joining the lines of `t` gives `t` back.
proof fn lemma_segs(t: Seq<char>, i: int, start: int)
    requires
        0 <= start <= i <= t.len(),
    ensures
        segs_from(t, i, start).len() >= 1,
        join(segs_from(t, i, start)) == t.subrange(start, t.len() as int),
    decreases t.len() - i,
{
    if i < t.len() {
        if t[i] == '\n' {
            lemma_segs(t, i + 1, i + 1);
            lemma_join_cons(t.subrange(start, i), segs_from(t, i + 1, i + 1));
            assert(t.subrange(start, i) + seq!['\n'] + t.subrange(i + 1, t.len() as int) =~= t.subrange(
                start,
                t.len() as int,
            ));
        } else {
            lemma_segs(t, i + 1, start);
        }
    }
}

/// Fragment tokens for the lines `l`: the first with the gap `(nl, blank)`,
/// each later one after a single line break.
pub open spec fn vt(l: Seq<Seq<char>>, nl: bool, blank: bool, prefix: Seq<char>) -> Seq<TokGap> {
    Seq::new(
        l.len(),
        |j: int|
            TokGap {
                tok: TokM::Verbatim(l[j]),
                nl: if j == 0 {
                    nl
                } else {
                    true
                },
                blank: if j == 0 {
                    blank
                } else {
                    false
                },
                prefix: if j == 0 {
                    prefix
                } else {
                    Seq::empty()
                },
            },
    )
}

proof fn lemma_tf_verb(t: Seq<char>, i: int, start: int, first: bool, g: Gap)
    ensures
        tf(sy_verb_from(t, i, start, first), g) =~= vt(
            segs_from(t, i, start),
            if first { g.nl } else { true },
            if first { g.blank } else { g.blank || g.last_nl },
            g.text,
        ),
        pend(sy_verb_from(t, i, start, first), g) == gap0(),
    decreases t.len() - i,
{
    let lead = if first { Seq::<Sym>::empty() } else { seq![Sym::N] };
    let g1 = pend(lead, g);
    assert(g1.nl == (if first { g.nl } else { true }) && g1.blank == (if first { g.blank } else { g.blank
        || g.last_nl }) && g1.text == g.text) by {
        if !first {
            assert(lead.drop_last() =~= Seq::<Sym>::empty());
            assert(pend(lead.drop_last(), g) == g);
            assert(lead.last() == Sym::N);
        }
    }
    if 0 <= i < t.len() && t[i] != '\n' {
        lemma_tf_verb(t, i + 1, start, first, g);
    } else {
        let end = if i < 0 || i >= t.len() { t.len() as int } else { i };
        let seg = t.subrange(start, end);
        let x = seq![Sym::T(TokM::Verbatim(seg))];
        lemma_tf_single(TokM::Verbatim(seg), g1);
        lemma_tf_no_tok(lead, g);
        assert(no_tok(lead)) by {
            assert forall|k: int| 0 <= k < lead.len() implies !(#[trigger] lead[k] is T) by {
                assert(lead[k] == Sym::N);
            }
        }
        lemma_tf_no_tok(lead, g);
        lemma_tf_concat(lead, x, g);
        if i < 0 || i >= t.len() {
            assert(sy_verb_from(t, i, start, first) == lead + x);
        } else {
            let rest = sy_verb_from(t, i + 1, i + 1, false);
            assert(sy_verb_from(t, i, start, first) == lead + x + rest);
            lemma_tf_concat(lead + x, rest, g);
            lemma_tf_verb(t, i + 1, i + 1, false, gap0());
        }
    }
}

// ---------------------------------------------------------------------
// The parser over the tokens of a written tree.

/// Tokens `pos..` of the parser's context are `w`, with their gaps.
pub open spec fn win(c: PCtx, pos: int, w: Seq<TokGap>) -> bool {
    &&& 0 <= pos
    &&& pos + w.len() <= c.toks.len()
    &&& c.nl.len() >= c.toks.len()
    &&& c.blank.len() >= c.toks.len()
    &&& c.prefixes.len() >= c.toks.len()
    &&& forall|k: int|
        0 <= k < w.len() ==> c.toks[pos + k] == (#[trigger] w[k]).tok && c.nl[pos + k] == w[k].nl && c.blank[pos
            + k] == w[k].blank && c.prefixes[pos + k] == w[k].prefix
}

pub proof fn lemma_win_split(c: PCtx, pos: int, a: Seq<TokGap>, b: Seq<TokGap>)
    requires
        win(c, pos, a + b),
    ensures
        win(c, pos, a),
        win(c, pos + a.len(), b),
{
    assert forall|k: int| 0 <= k < a.len() implies c.toks[pos + k] == (#[trigger] a[k]).tok && c.nl[pos + k]
        == a[k].nl && c.blank[pos + k] == a[k].blank && c.prefixes[pos + k] == a[k].prefix by {
        assert((a + b)[k] == a[k]);
    }
    assert forall|k: int| 0 <= k < b.len() implies c.toks[pos + a.len() + k] == (#[trigger] b[k]).tok && c.nl[pos
        + a.len() + k] == b[k].nl && c.blank[pos + a.len() + k] == b[k].blank && c.prefixes[pos + a.len() + k]
        == b[k].prefix by {
        assert((a + b)[a.len() + k] == b[k]);
    }
}

/// The fragment run of a verbatim string ends before token `j`.
pub open spec fn verb_stop(c: PCtx, j: int) -> bool {
    !(0 <= j < c.toks.len() && c.toks[j] is Verbatim && !(0 <= j < c.blank.len() && c.blank[j]))
}

proof fn lemma_verb_end(c: PCtx, pos: int, l: Seq<Seq<char>>, nl: bool, bl: bool, px: Seq<char>, j: int)
    requires
        win(c, pos, vt(l, nl, bl, px)),
        verb_stop(c, pos + l.len()),
        1 <= j <= l.len(),
    ensures
        verb_end(c, pos + j) == pos + l.len(),
    decreases l.len() - j,
{
    if j < l.len() {
        assert(vt(l, nl, bl, px)[j].tok == TokM::Verbatim(l[j]));
        lemma_verb_end(c, pos, l, nl, bl, px, j + 1);
    }
}

proof fn lemma_verb_join(c: PCtx, pos: int, l: Seq<Seq<char>>, nl: bool, bl: bool, px: Seq<char>, m: int)
    requires
        win(c, pos, vt(l, nl, bl, px)),
        1 <= m <= l.len(),
    ensures
        verb_join(c, pos, pos + m) == join(l.take(m)),
    decreases m,
{
    assert(vt(l, nl, bl, px)[m - 1].tok == TokM::Verbatim(l[m - 1]));
    assert(frag(c, pos + m - 1) == l[m - 1]);
    if m == 1 {
        assert(l.take(1) =~= seq![l[0]]);
    } else {
        lemma_verb_join(c, pos, l, nl, bl, px, m - 1);
        assert(l.take(m).drop_last() =~= l.take(m - 1));
    }
}

/// Two values agree on everything but trivia.
pub open spec fn same_shape(a: ValueM, b: ValueM) -> bool
    decreases a,
{
    match a {
        ValueM::Array { items, .. } => match b {
            ValueM::Array { items: y, .. } => items.len() == y.len() && forall|k: int|
                0 <= k < items.len() ==> same_shape(#[trigger] items[k].value, y[k].value),
            _ => false,
        },
        ValueM::Object { entries, .. } => match b {
            ValueM::Object { entries: y, .. } => entries.len() == y.len() && forall|k: int|
                0 <= k < entries.len() ==> (#[trigger] entries[k]).key.value == y[k].key.value && same_shape(
                    entries[k].value.value,
                    y[k].value.value,
                ),
            _ => false,
        },
        _ => a == b,
    }
}

/// What a node needs for the parser to split its tokens back into the
/// same values: two verbatim strings in a row in an array are apart by an
/// empty line, which the second one's comments provide.
pub open spec fn read_ok(n: NodeM, st: Style) -> bool
    decreases n,
{
    match n.value {
        ValueM::Array { items, .. } => forall|k: int|
            0 <= k < items.len() ==> read_ok(#[trigger] items[k], st) && (k + 1 < items.len() && is_vw(items[k], st)
                && is_vw(items[k + 1], st) ==> items[k + 1].prefix.len() > 0),
        ValueM::Object { entries, .. } => forall|k: int| 0 <= k < entries.len() ==> read_ok(#[trigger] entries[k].value, st),
        _ => true,
    }
}

/// A token a value can start with.
pub open spec fn value_start(t: TokM) -> bool {
    t is LBrace || t is LBracket || t is Number || t is Str || t is Bare || t is Verbatim
}

/// The first token of a value carries the gap before the value.
pub proof fn lemma_value_head(n: NodeM, st: Style, g: Gap)
    ensures
        tf(sy_value(n, st), g).len() >= 1,
        tf(sy_value(n, st), g)[0].nl == g.nl,
        tf(sy_value(n, st), g)[0].blank == g.blank,
        value_start(tf(sy_value(n, st), g)[0].tok),
        tf(sy_value(n, st), g)[0].tok is Verbatim <==> is_vw(n, st),
        n.value is Array ==> tf(sy_value(n, st), g)[0].tok == TokM::LBracket,
        n.value is Object ==> tf(sy_value(n, st), g)[0].tok == TokM::LBrace,
{
    match n.value {
        ValueM::Null => lemma_tf_single(TokM::Bare("null"@), g),
        ValueM::Bool(b) => lemma_tf_single(TokM::Bare(if b { "true"@ } else { "false"@ }), g),
        ValueM::Number(raw) => lemma_tf_single(TokM::Number(raw), g),
        ValueM::Str(t) => {
            if st.eff_verbatim_strings() && t.contains('\n') {
                lemma_tf_verb(t, 0, 0, true, g);
                lemma_segs(t, 0, 0);
            } else {
                lemma_tf_single(TokM::Str(t, kind_of(st.eff_value_quote())), g);
            }
        },
        ValueM::Array { items, trailing } => {
            let a = seq![Sym::T(TokM::LBracket)];
            let rest = sy_value(n, st).subrange(1, sy_value(n, st).len() as int);
            assert(sy_value(n, st) =~= a + rest);
            lemma_tf_concat(a, rest, g);
            lemma_tf_single(TokM::LBracket, g);
        },
        ValueM::Object { entries, trailing } => {
            let a = seq![Sym::T(TokM::LBrace)];
            let rest = sy_value(n, st).subrange(1, sy_value(n, st).len() as int);
            assert(sy_value(n, st) =~= a + rest);
            lemma_tf_concat(a, rest, g);
            lemma_tf_single(TokM::LBrace, g);
        },
    }
}

/// Array elements `k..`: the first token follows a line break, and an
/// empty line when the element has comments.
pub proof fn lemma_items_head(items: Seq<NodeM>, k: int, st: Style, g: Gap)
    requires
        0 <= k < items.len(),
        comment_lines(items[k].prefix),
    ensures
        tf(sy_items_from(items, k, st), g).len() >= 1,
        tf(sy_items_from(items, k, st), g)[0].nl,
        items[k].prefix.len() > 0 ==> tf(sy_items_from(items, k, st), g)[0].blank,
        value_start(tf(sy_items_from(items, k, st), g)[0].tok),
        tf(sy_items_from(items, k, st), g)[0].tok is Verbatim <==> is_vw(items[k], st),
{
    let sb = sy_break(items[k].prefix);
    let sv = sy_value(items[k], st);
    let rest = sy_comma(st, k + 1 == items.len()) + sy_items_from(items, k + 1, st);
    assert(sy_items_from(items, k, st) =~= sb + (sv + rest));
    lemma_tf_concat(sb, sv + rest, g);
    lemma_tf_concat(sv, rest, pend(sb, g));
    lemma_break_gap(items[k].prefix, g);
    lemma_value_head(items[k], st, pend(sb, g));
}

/// Object entries `k..`: the first token is the key, after a line break.
pub proof fn lemma_entries_head(entries: Seq<EntryM>, k: int, st: Style, g: Gap)
    requires
        0 <= k < entries.len(),
        comment_lines(entries[k].key.prefix),
    ensures
        tf(sy_entries_from(entries, k, st), g).len() >= 1,
        tf(sy_entries_from(entries, k, st), g)[0].nl,
        tf(sy_entries_from(entries, k, st), g)[0].tok == key_tok(entries[k].key, st),
{
    let sb = sy_break(entries[k].key.prefix);
    let kt = seq![Sym::T(key_tok(entries[k].key, st))];
    let se = sy_entry(entries[k], k + 1 == entries.len(), st);
    let rest = se.subrange(1, se.len() as int) + sy_entries_from(entries, k + 1, st);
    assert(sy_entries_from(entries, k, st) =~= sb + (kt + rest));
    lemma_tf_concat(sb, kt + rest, g);
    lemma_tf_concat(kt, rest, pend(sb, g));
    lemma_break_gap(entries[k].key.prefix, g);
    lemma_tf_single(key_tok(entries[k].key, st), pend(sb, g));
}

// ---------------------------------------------------------------------
// The style the parser records while reading the writer's text.

/// How the parser records a key the writer wrote with `st`.
pub open spec fn key_kind(key: NodeM, st: Style) -> KeyStyle {
    match key_tok(key, st) {
        TokM::Str(_, q) => if q is Double {
            KeyStyle::Double
        } else {
            KeyStyle::Single
        },
        _ => KeyStyle::Bare,
    }
}

/// What the parser records after an element: a comma, or a line break
/// before the next element.
pub open spec fn ob_sep(st: Style, is_last: bool, s: Style) -> Style {
    if w_comma(st, is_last).len() > 0 {
        note_commas(s, true)
    } else if !is_last {
        note_commas(s, false)
    } else {
        s
    }
}

/// The style the parser records, from `s` on, while reading a value as
/// the writer writes it with `st`.
pub open spec fn ob_value(n: NodeM, st: Style, s: Style) -> Style
    decreases n, 0int,
{
    match n.value {
        ValueM::Str(_) => if is_vw(n, st) {
            note_verbatim_strings(s, true)
        } else {
            note_value_quote(s, st.eff_value_quote())
        },
        ValueM::Array { items, .. } => if items.len() == 0 {
            s
        } else {
            note_trailing_comma(ob_items(items, 0, st, s), w_comma(st, true).len() > 0)
        },
        ValueM::Object { entries, .. } => if entries.len() == 0 {
            s
        } else {
            note_trailing_comma(ob_entries(entries, 0, st, s), w_comma(st, true).len() > 0)
        },
        _ => s,
    }
}

/// See [`ob_value`]: array elements `k..`.
pub open spec fn ob_items(items: Seq<NodeM>, k: int, st: Style, s: Style) -> Style
    decreases items, items.len() - k,
{
    if 0 <= k < items.len() {
        ob_items(items, k + 1, st, ob_sep(st, k + 1 == items.len(), ob_value(items[k], st, s)))
    } else {
        s
    }
}

/// See [`ob_value`]: one object entry.
pub open spec fn ob_entry(e: EntryM, is_last: bool, st: Style, s: Style) -> Style
    decreases e, 0int,
{
    let s2 = note_separator(note_key_style(s, key_kind(e.key, st)), st.eff_separator());
    ob_sep(st, is_last, ob_value(e.value, st, s2))
}

/// See [`ob_value`]: object entries `k..`.
pub open spec fn ob_entries(entries: Seq<EntryM>, k: int, st: Style, s: Style) -> Style
    decreases entries, entries.len() - k,
{
    if 0 <= k < entries.len() {
        ob_entries(entries, k + 1, st, ob_entry(entries[k], k + 1 == entries.len(), st, s))
    } else {
        s
    }
}

/// A string with a line break splits into two lines or more.
proof fn lemma_segs_two(t: Seq<char>, i: int, start: int, b: int)
    requires
        0 <= start <= i <= b < t.len(),
        t[b] == '\n',
    ensures
        segs_from(t, i, start).len() >= 2,
    decreases t.len() - i,
{
    if t[i] == '\n' {
        lemma_segs(t, i + 1, i + 1);
    } else {
        lemma_segs_two(t, i + 1, start, b);
    }
}

/// The parser reads a written value back with the same shape.
pub proof fn lemma_pv(c: PCtx, pos: int, n: NodeM, st: Style, g: Gap, s0: Style)
    requires
        lex_ok(n, st),
        read_ok(n, st),
        win(c, pos, tf(sy_value(n, st), g)),
        is_vw(n, st) ==> verb_stop(c, pos + tf(sy_value(n, st), g).len()),
    ensures
        p_value(c, pos, s0) matches Ok((m, q, s)) && q == pos + tf(sy_value(n, st), g).len() && m.prefix == g.text
            && reads_as(m.value, n.value) && s == ob_value(n, st, s0),
    decreases n, 2int,
{
    let w = tf(sy_value(n, st), g);
    reveal_strlit("null");
    reveal_strlit("true");
    reveal_strlit("false");
    match n.value {
        ValueM::Null => {
            lemma_tf_single(TokM::Bare("null"@), g);
            assert(w[0].tok == c.toks[pos]);
            assert(("null"@)[0] != ("true"@)[0]);
            assert(("null"@)[0] != ("false"@)[0]);
        },
        ValueM::Bool(b) => {
            lemma_tf_single(TokM::Bare(if b { "true"@ } else { "false"@ }), g);
            assert(w[0].tok == c.toks[pos]);
            assert(("false"@).len() != ("true"@).len());
        },
        ValueM::Number(raw) => {
            lemma_tf_single(TokM::Number(raw), g);
            assert(w[0].tok == c.toks[pos]);
        },
        ValueM::Str(t) => {
            if st.eff_verbatim_strings() && t.contains('\n') {
                lemma_tf_verb(t, 0, 0, true, g);
                lemma_segs(t, 0, 0);
                let l = segs_from(t, 0, 0);
                assert(w == vt(l, g.nl, g.blank, g.text));
                assert(w[0].tok == c.toks[pos]);
                let b = choose|b: int| 0 <= b < t.len() && t[b] == '\n';
                lemma_segs_two(t, 0, 0, b);
                lemma_verb_end(c, pos, l, g.nl, g.blank, g.text, 1);
                lemma_verb_join(c, pos, l, g.nl, g.blank, g.text, l.len() as int);
                lemma_verb_extra(c, pos, l, g.nl, g.blank, g.text, l.len() as int);
                assert(pref(c, pos) + Seq::<char>::empty() =~= pref(c, pos));
                assert(l.take(l.len() as int) =~= l);
                assert(t.subrange(0, t.len() as int) =~= t);

            } else {
                lemma_tf_single(TokM::Str(t, kind_of(st.eff_value_quote())), g);
                assert(w[0].tok == c.toks[pos]);
            }
        },
        ValueM::Array { .. } => {
            lemma_pv_array(c, pos, n, st, g, s0);
        },
        ValueM::Object { .. } => {
            lemma_pv_object(c, pos, n, st, g, s0);
        },
    }
}

proof fn lemma_pv_array(c: PCtx, pos: int, n: NodeM, st: Style, g: Gap, s0: Style)
    requires
        n.value is Array,
        lex_ok(n, st),
        read_ok(n, st),
        win(c, pos, tf(sy_value(n, st), g)),
    ensures
        p_value(c, pos, s0) matches Ok((m, q, s)) && q == pos + tf(sy_value(n, st), g).len() && m.prefix == g.text
            && reads_as(m.value, n.value) && s == ob_value(n, st, s0),
    decreases n, 1int,
{
    let items = n.value->items;
    let trailing = n.value->Array_trailing;
    let w = tf(sy_value(n, st), g);
    let a = seq![Sym::T(TokM::LBracket)];
    let z = seq![Sym::T(TokM::RBracket)];
    lemma_tf_single(TokM::LBracket, g);
    if items.len() == 0 && trim(trailing).len() == 0 {
        assert(sy_value(n, st) == a + z);
        lemma_tf_concat(a, z, g);
        lemma_tf_single(TokM::RBracket, gap0());
        assert(w[0].tok == c.toks[pos]);
        assert(w[1].tok == c.toks[pos + 1]);
        assert(w[1].prefix == c.prefixes[pos + 1]);
        lemma_cl_trim_empty(trailing);
        assert(ret(trailing) == Seq::<char>::empty());
        assert(p_arr_items(c, pos + 1, s0) == Ok::<(Seq<NodeM>, bool, int, Style), ErrM>(
            (Seq::empty(), false, pos + 1, s0),
        ));
    } else {
        let si = sy_items_from(items, 0, st);
        let sb = sy_break(trailing);
        assert(sy_value(n, st) == a + si + sb + z);
        lemma_tf_concat(a + si + sb, z, g);
        lemma_tf_concat(a + si, sb, g);
        lemma_tf_concat(a, si, g);
        lemma_break_gap(trailing, pend(a + si, g));
        lemma_tf_single(TokM::RBracket, pend(a + si + sb, g));
        let wa = tf(a, g);
        let wi = tf(si, gap0());
        let wz = tf(z, pend(a + si + sb, g));
        assert(w =~= wa + wi + wz);
        lemma_win_split(c, pos, wa + wi, wz);
        lemma_win_split(c, pos, wa, wi);
        assert(wa[0].tok == c.toks[pos]);
        assert(wz[0].tok == c.toks[pos + 1 + wi.len()]);
        assert(wz[0].prefix == c.prefixes[pos + 1 + wi.len()]);
        if items.len() > 0 {
            lemma_items_pend(items, 0, st, gap0());
        } else {
            assert(si == Seq::<Sym>::empty());
        }
        assert(pend(a + si, g) == gap0());
        lemma_break_text(trailing, gap0());
        assert(gap0().text + ret(trailing) =~= ret(trailing));
        lemma_pitems(c, pos + 1, items, 0, st, gap0(), s0);
        match p_arr_items(c, pos + 1, s0) {
            Ok((xs, seen, q, s1)) => {
                assert forall|j: int| 0 <= j < xs.len() implies (#[trigger] xs[j]).prefix == ret(items[j].prefix)
                    && reads_as(xs[j].value, items[j].value) by {
                    assert(xs[j].prefix == ret(items[0 + j].prefix));
                }
            },
            Err(_) => {},
        }
    }
}

proof fn lemma_pv_object(c: PCtx, pos: int, n: NodeM, st: Style, g: Gap, s0: Style)
    requires
        n.value is Object,
        lex_ok(n, st),
        read_ok(n, st),
        win(c, pos, tf(sy_value(n, st), g)),
    ensures
        p_value(c, pos, s0) matches Ok((m, q, s)) && q == pos + tf(sy_value(n, st), g).len() && m.prefix == g.text
            && reads_as(m.value, n.value) && s == ob_value(n, st, s0),
    decreases n, 1int,
{
    let entries = n.value->entries;
    let trailing = n.value->Object_trailing;
    let w = tf(sy_value(n, st), g);
    let a = seq![Sym::T(TokM::LBrace)];
    let z = seq![Sym::T(TokM::RBrace)];
    lemma_tf_single(TokM::LBrace, g);
    if entries.len() == 0 && trim(trailing).len() == 0 {
        assert(sy_value(n, st) == a + z);
        lemma_tf_concat(a, z, g);
        lemma_tf_single(TokM::RBrace, gap0());
        assert(w[0].tok == c.toks[pos]);
        assert(w[1].tok == c.toks[pos + 1]);
        assert(w[1].prefix == c.prefixes[pos + 1]);
        lemma_cl_trim_empty(trailing);
        assert(ret(trailing) == Seq::<char>::empty());
        assert(p_obj_entries(c, pos + 1, s0) == Ok::<(Seq<EntryM>, bool, int, Style), ErrM>(
            (Seq::empty(), false, pos + 1, s0),
        ));
    } else {
        let se = sy_entries_from(entries, 0, st);
        let sb = sy_break(trailing);
        assert(sy_value(n, st) == a + se + sb + z);
        lemma_tf_concat(a + se + sb, z, g);
        lemma_tf_concat(a + se, sb, g);
        lemma_tf_concat(a, se, g);
        lemma_break_gap(trailing, pend(a + se, g));
        lemma_tf_single(TokM::RBrace, pend(a + se + sb, g));
        let wa = tf(a, g);
        let we = tf(se, gap0());
        let wz = tf(z, pend(a + se + sb, g));
        assert(w =~= wa + we + wz);
        lemma_win_split(c, pos, wa + we, wz);
        lemma_win_split(c, pos, wa, we);
        assert(wa[0].tok == c.toks[pos]);
        assert(wz[0].tok == c.toks[pos + 1 + we.len()]);
        assert(wz[0].prefix == c.prefixes[pos + 1 + we.len()]);
        if entries.len() > 0 {
            lemma_entries_pend(entries, 0, st, gap0());
        } else {
            assert(se == Seq::<Sym>::empty());
        }
        assert(pend(a + se, g) == gap0());
        lemma_break_text(trailing, gap0());
        assert(gap0().text + ret(trailing) =~= ret(trailing));
        lemma_pentries(c, pos + 1, entries, 0, st, gap0(), s0);
        match p_obj_entries(c, pos + 1, s0) {
            Ok((es, seen, q, s1)) => {
                assert forall|j: int| 0 <= j < es.len() implies (#[trigger] es[j]).key.prefix == ret(
                    entries[j].key.prefix,
                ) && es[j].key.value == entries[j].key.value && es[j].value.prefix == ret(entries[j].value.prefix)
                    && reads_as(es[j].value.value, entries[j].value.value) by {
                    assert(es[j].key.value == entries[0 + j].key.value);
                }
            },
            Err(_) => {},
        }
    }
}

proof fn lemma_tf_empty(g: Gap)
    ensures
        tf(Seq::<Sym>::empty(), g) == Seq::<TokGap>::empty(),
        pend(Seq::<Sym>::empty(), g) == g,
{
}

/// The parser reads written array elements `k..` back, up to the `]`.
#[verifier::rlimit(80)]
#[verifier::spinoff_prover]
proof fn lemma_pitems(c: PCtx, pos: int, items: Seq<NodeM>, k: int, st: Style, g: Gap, s0: Style)
    requires
        0 <= k <= items.len(),
        forall|m: int|
            0 <= m < items.len() ==> lex_ok(#[trigger] items[m], st) && (is_vw(items[m], st) ==> w_comma(
                st,
                m + 1 == items.len(),
            ).len() == 0),
        forall|m: int|
            0 <= m < items.len() ==> read_ok(#[trigger] items[m], st) && (m + 1 < items.len() && is_vw(items[m], st)
                && is_vw(items[m + 1], st) ==> items[m + 1].prefix.len() > 0),
        win(c, pos, tf(sy_items_from(items, k, st), g)),
        pos + tf(sy_items_from(items, k, st), g).len() < c.toks.len(),
        c.toks[pos + tf(sy_items_from(items, k, st), g).len()] == TokM::RBracket,
        g.text == Seq::<char>::empty(),
    ensures
        p_arr_items(c, pos, s0) matches Ok((xs, seen, q, s)) && q == pos + tf(sy_items_from(items, k, st), g).len()
            && xs.len() == items.len() - k && (k < items.len() ==> seen == (w_comma(st, true).len() > 0)) && s
            == ob_items(items, k, st, s0) && forall|j: int|
            0 <= j < xs.len() ==> (#[trigger] xs[j]).prefix == ret(items[k + j].prefix) && reads_as(
                xs[j].value,
                items[k + j].value,
            ),
    decreases items, items.len() - k,
{
    let w = tf(sy_items_from(items, k, st), g);
    if k >= items.len() {
        assert(sy_items_from(items, k, st) == Seq::<Sym>::empty());
        lemma_tf_empty(g);
    } else {
        let it = items[k];
        let last = k + 1 == items.len();
        let sb = sy_break(it.prefix);
        let sv = sy_value(it, st);
        let sc = sy_comma(st, last);
        let sr = sy_items_from(items, k + 1, st);
        assert(sy_items_from(items, k, st) == sb + sv + sc + sr);
        lemma_tf_concat(sb + sv + sc, sr, g);
        lemma_tf_concat(sb + sv, sc, g);
        lemma_tf_concat(sb, sv, g);
        assert(lex_ok(it, st));
        assert(read_ok(it, st));
        lemma_break_gap(it.prefix, g);
        let g1 = pend(sb, g);
        let g2 = pend(sb + sv, g);
        let g3 = pend(sb + sv + sc, g);
        lemma_break_text(it.prefix, g);
        assert(g1.text == ret(it.prefix)) by {
            assert(g.text + ret(it.prefix) =~= ret(it.prefix));
        }
        lemma_value_pend(it, st, g1);
        let wv = tf(sv, g1);
        let wc = tf(sc, g2);
        let wr = tf(sr, g3);
        assert(w =~= wv + wc + wr);
        lemma_win_split(c, pos, wv + wc, wr);
        lemma_win_split(c, pos, wv, wc);
        lemma_value_head(it, st, g1);
        assert(wv[0].tok == c.toks[pos]);
        let p3 = pos + wv.len();
        if sc.len() > 0 {
            assert(sc == seq![Sym::T(TokM::Comma)]);
            lemma_tf_single(TokM::Comma, g2);
            assert(wc[0].tok == c.toks[p3]);
        } else {
            assert(sc == Seq::<Sym>::empty());
            lemma_tf_empty(g2);
        }
        assert(g3 == gap0());
        if k + 1 < items.len() {
            assert(lex_ok(items[k + 1], st));
            lemma_items_head(items, k + 1, st, g3);
            assert(wr[0].tok == c.toks[p3 + wc.len()]);
            assert(wr[0].nl == c.nl[p3 + wc.len()]);
            assert(wr[0].blank == c.blank[p3 + wc.len()]);
        } else {
            assert(sr == Seq::<Sym>::empty());
            lemma_tf_empty(g3);
        }
        lemma_pv(c, pos, it, st, g1, s0);
        match p_value(c, pos, s0) {
            Ok((m, q3, s3)) => {
                assert(ob_items(items, k, st, s0) == ob_items(items, k + 1, st, ob_sep(st, last, s3)));
                if sc.len() > 0 {
                    let s4 = note_commas(s3, true);
                    assert(ob_sep(st, last, s3) == s4);
                    if k + 1 >= items.len() {
                        assert(ob_items(items, k + 1, st, s4) == s4);
                    }
                    if k + 1 < items.len() {
                        lemma_pitems(c, p3 + 1, items, k + 1, st, g3, s4);
                        match p_arr_items(c, p3 + 1, s4) {
                            Ok((rest, seen, q, s5)) => {
                                let xs = seq![m] + rest;
                                assert forall|j: int| 0 <= j < xs.len() implies (#[trigger] xs[j]).prefix == ret(
                                    items[k + j].prefix,
                                ) && reads_as(xs[j].value, items[k + j].value) by {
                                    if j > 0 {
                                        assert(xs[j] == rest[j - 1]);
                                        assert(rest[j - 1].prefix == ret(items[k + 1 + (j - 1)].prefix));
                                    }
                                }
                            },
                            Err(_) => {},
                        }
                    }
                } else {
                    if k + 1 >= items.len() {
                        assert(ob_sep(st, last, s3) == s3);
                        assert(ob_items(items, k + 1, st, s3) == s3);
                    }
                    if k + 1 < items.len() {
                        let s4 = note_commas(s3, false);
                        assert(ob_sep(st, last, s3) == s4);
                        lemma_pitems(c, p3, items, k + 1, st, g3, s4);
                        match p_arr_items(c, p3, s4) {
                            Ok((rest, seen, q, s5)) => {
                                let xs = seq![m] + rest;
                                assert forall|j: int| 0 <= j < xs.len() implies (#[trigger] xs[j]).prefix == ret(
                                    items[k + j].prefix,
                                ) && reads_as(xs[j].value, items[k + j].value) by {
                                    if j > 0 {
                                        assert(xs[j] == rest[j - 1]);
                                        assert(rest[j - 1].prefix == ret(items[k + 1 + (j - 1)].prefix));
                                    }
                                }
                            },
                            Err(_) => {},
                        }
                    }
                }
            },
            Err(_) => {},
        }
    }
}

/// The tokens of one entry after its leading break: key, separator, then
/// the value after its (token-less) soft break, then the comma.
proof fn lemma_entry_tf(e: EntryM, is_last: bool, st: Style, g: Gap)
    requires
        comment_lines(e.value.prefix),
    ensures
        ({
            let gv = pend(sy_soft(e.value.prefix), gap0());
            let sv = sy_value(e.value, st);
            &&& tf(sy_entry(e, is_last, st), g) =~= seq![
                TokGap { tok: key_tok(e.key, st), nl: g.nl, blank: g.blank, prefix: g.text },
                TokGap { tok: sep_tok(st), nl: false, blank: false, prefix: Seq::empty() },
            ] + tf(sv, gv) + tf(sy_comma(st, is_last), pend(sv, gv))
            &&& pend(sy_entry(e, is_last, st), g) == pend(sy_comma(st, is_last), pend(sv, gv))
        }),
{
    let kt = seq![Sym::T(key_tok(e.key, st))];
    let spt = seq![Sym::T(sep_tok(st))];
    let sf = sy_soft(e.value.prefix);
    let sv = sy_value(e.value, st);
    let sc = sy_comma(st, is_last);
    assert(sy_entry(e, is_last, st) == kt + spt + sf + sv + sc);
    lemma_tf_concat(kt + spt + sf + sv, sc, g);
    lemma_tf_concat(kt + spt + sf, sv, g);
    lemma_tf_concat(kt + spt, sf, g);
    lemma_tf_concat(kt, spt, g);
    lemma_tf_single(key_tok(e.key, st), g);
    lemma_tf_single(sep_tok(st), gap0());
    lemma_break_gap(e.value.prefix, gap0());
    lemma_tf_no_tok(sf, gap0());
}

/// The parser reads written object entries `k..` back, up to the `}`.
#[verifier::rlimit(80)]
#[verifier::spinoff_prover]
proof fn lemma_pentries(c: PCtx, pos: int, entries: Seq<EntryM>, k: int, st: Style, g: Gap, s0: Style)
    requires
        0 <= k <= entries.len(),
        forall|m: int| 0 <= m < entries.len() ==> entry_lex_ok(#[trigger] entries[m], m + 1 == entries.len(), st),
        forall|m: int| 0 <= m < entries.len() ==> read_ok(#[trigger] entries[m].value, st),
        win(c, pos, tf(sy_entries_from(entries, k, st), g)),
        pos + tf(sy_entries_from(entries, k, st), g).len() < c.toks.len(),
        c.toks[pos + tf(sy_entries_from(entries, k, st), g).len()] == TokM::RBrace,
        g.text == Seq::<char>::empty(),
    ensures
        p_obj_entries(c, pos, s0) matches Ok((es, seen, q, s)) && q == pos + tf(sy_entries_from(entries, k, st), g).len()
            && es.len() == entries.len() - k && (k < entries.len() ==> seen == (w_comma(st, true).len() > 0)) && s
            == ob_entries(entries, k, st, s0) && forall|j: int|
            0 <= j < es.len() ==> (#[trigger] es[j]).key.prefix == ret(entries[k + j].key.prefix) && es[j].key.value
                == entries[k + j].key.value && es[j].value.prefix == ret(entries[k + j].value.prefix) && reads_as(
                es[j].value.value,
                entries[k + j].value.value,
            ),
    decreases entries, entries.len() - k,
{
    let w = tf(sy_entries_from(entries, k, st), g);
    if k >= entries.len() {
        assert(sy_entries_from(entries, k, st) == Seq::<Sym>::empty());
        lemma_tf_empty(g);
    } else {
        let e = entries[k];
        let last = k + 1 == entries.len();
        assert(entry_lex_ok(e, last, st));
        assert(read_ok(entries[k].value, st));
        let sb = sy_break(e.key.prefix);
        let se = sy_entry(e, last, st);
        let sr = sy_entries_from(entries, k + 1, st);
        assert(sy_entries_from(entries, k, st) == sb + se + sr);
        lemma_tf_concat(sb + se, sr, g);
        lemma_tf_concat(sb, se, g);
        lemma_break_gap(e.key.prefix, g);
        let g1 = pend(sb, g);
        lemma_entry_tf(e, last, st, g1);
        lemma_break_text(e.key.prefix, g);
        assert(g1.text == ret(e.key.prefix)) by {
            assert(g.text + ret(e.key.prefix) =~= ret(e.key.prefix));
        }
        lemma_break_text(e.value.prefix, gap0());
        assert(pend(sy_soft(e.value.prefix), gap0()).text == ret(e.value.prefix)) by {
            assert(gap0().text + ret(e.value.prefix) =~= ret(e.value.prefix));
        }
        lemma_entries_pend(entries, k, st, g1);
        let gv = pend(sy_soft(e.value.prefix), gap0());
        let sv = sy_value(e.value, st);
        let sc = sy_comma(st, last);
        let g2 = pend(sv, gv);
        let g3 = pend(sb + se, g);
        assert(g3 == gap0());
        let wk = seq![
            TokGap { tok: key_tok(e.key, st), nl: g1.nl, blank: g1.blank, prefix: g1.text },
            TokGap { tok: sep_tok(st), nl: false, blank: false, prefix: Seq::empty() },
        ];
        let wv = tf(sv, gv);
        let wc = tf(sc, g2);
        let wr = tf(sr, g3);
        assert(w =~= wk + wv + wc + wr);
        lemma_win_split(c, pos, wk + wv + wc, wr);
        lemma_win_split(c, pos, wk + wv, wc);
        lemma_win_split(c, pos, wk, wv);
        assert(wk[0].tok == c.toks[pos]);
        assert(wk[0].prefix == c.prefixes[pos]);
        assert(wk[1].tok == c.toks[pos + 1]);
        lemma_value_head(e.value, st, gv);
        let p2 = pos + 2;
        let p3 = p2 + wv.len();
        if sc.len() > 0 {
            assert(sc == seq![Sym::T(TokM::Comma)]);
            lemma_tf_single(TokM::Comma, g2);
            assert(wc[0].tok == c.toks[p3]);
        } else {
            assert(sc == Seq::<Sym>::empty());
            lemma_tf_empty(g2);
        }
        if k + 1 < entries.len() {
            assert(entry_lex_ok(entries[k + 1], k + 2 == entries.len(), st));
            lemma_entries_head(entries, k + 1, st, g3);
            assert(wr[0].tok == c.toks[p3 + wc.len()]);
            assert(wr[0].nl == c.nl[p3 + wc.len()]);
        } else {
            assert(sr == Seq::<Sym>::empty());
            lemma_tf_empty(g3);
        }
        let text = key_text(e.key);
        match p_key(c, pos, s0) {
            Ok((key, p1, s1)) => {
                assert(key.value == e.key.value);
                match p_sep(c, p1, s1) {
                    Ok((q2, s2)) => {
                        assert(q2 == p2);
                        assert(s2 == note_separator(note_key_style(s0, key_kind(e.key, st)), st.eff_separator()));
                        lemma_pv(c, p2, e.value, st, gv, s2);
                        match p_value(c, p2, s2) {
                            Ok((value, q3, s3)) => {
                                let en = EntryM { key, value };
                                assert(ob_entry(e, last, st, s0) == ob_sep(st, last, s3));
                                assert(ob_entries(entries, k, st, s0) == ob_entries(entries, k + 1, st, ob_sep(st, last, s3)));
                                if k + 1 >= entries.len() {
                                    assert(ob_entries(entries, k + 1, st, ob_sep(st, last, s3)) == ob_sep(st, last, s3));
                                }
                                if k + 1 < entries.len() {
                                    let nx = if sc.len() > 0 { p3 + 1 } else { p3 };
                                    let s4 = if sc.len() > 0 { note_commas(s3, true) } else { note_commas(s3, false) };
                                    assert(ob_sep(st, last, s3) == s4);
                                    lemma_pentries(c, nx, entries, k + 1, st, g3, s4);
                                    match p_obj_entries(c, nx, s4) {
                                        Ok((rest, seen, q, s5)) => {
                                            let es = seq![en] + rest;
                                            assert forall|j: int| 0 <= j < es.len() implies (#[trigger] es[j]).key.prefix
                                                == ret(entries[k + j].key.prefix) && es[j].key.value == entries[k
                                                + j].key.value && es[j].value.prefix == ret(entries[k + j].value.prefix)
                                                && reads_as(es[j].value.value, entries[k + j].value.value) by {
                                                if j > 0 {
                                                    assert(es[j] == rest[j - 1]);
                                                    assert(rest[j - 1].key.value == entries[k + 1 + (j - 1)].key.value);
                                                    assert(rest[j - 1].key.prefix == ret(entries[k + 1 + (j - 1)].key.prefix));
                                                }
                                            }
                                        },
                                        Err(_) => {},
                                    }
                                }
                            },
                            Err(_) => {},
                        }
                    },
                    Err(_) => {},
                }
            },
            Err(_) => {},
        }
    }
}

/// The entries of a brace-less root from entry `k` on, after that
/// entry's leading break.
pub open spec fn sy_root_from(entries: Seq<EntryM>, k: int, st: Style) -> Seq<Sym> {
    if 0 <= k < entries.len() {
        sy_entry(entries[k], k + 1 == entries.len(), st) + sy_entries_from(entries, k + 1, st)
    } else {
        Seq::empty()
    }
}

/// The parser reads the written entries of a brace-less root back, to
/// the last token.
#[verifier::rlimit(80)]
#[verifier::spinoff_prover]
proof fn lemma_proot(c: PCtx, pos: int, entries: Seq<EntryM>, k: int, st: Style, g: Gap, s0: Style)
    requires
        0 <= k <= entries.len(),
        forall|m: int| 0 <= m < entries.len() ==> entry_lex_ok(#[trigger] entries[m], m + 1 == entries.len(), st),
        forall|m: int| 0 <= m < entries.len() ==> read_ok(#[trigger] entries[m].value, st),
        win(c, pos, tf(sy_root_from(entries, k, st), g)),
        pos + tf(sy_root_from(entries, k, st), g).len() == c.toks.len(),
        k < entries.len() ==> g.text == ret(entries[k].key.prefix),
    ensures
        p_bare_root(c, pos, s0) matches Ok((es, q, s)) && q == c.toks.len() && es.len() == entries.len() - k
            && s == ob_entries(entries, k, st, s0) && forall|j: int|
            0 <= j < es.len() ==> (#[trigger] es[j]).key.prefix == ret(entries[k + j].key.prefix) && es[j].key.value
                == entries[k + j].key.value && es[j].value.prefix == ret(entries[k + j].value.prefix) && reads_as(
                es[j].value.value,
                entries[k + j].value.value,
            ),
    decreases entries.len() - k,
{
    let w = tf(sy_root_from(entries, k, st), g);
    if k >= entries.len() {
        lemma_tf_empty(g);
    } else {
        let e = entries[k];
        let last = k + 1 == entries.len();
        assert(entry_lex_ok(e, last, st));
        assert(read_ok(entries[k].value, st));
        let se = sy_entry(e, last, st);
        let sr = sy_entries_from(entries, k + 1, st);
        lemma_tf_concat(se, sr, g);
        lemma_entry_tf(e, last, st, g);
        lemma_break_text(e.value.prefix, gap0());
        assert(pend(sy_soft(e.value.prefix), gap0()).text == ret(e.value.prefix)) by {
            assert(gap0().text + ret(e.value.prefix) =~= ret(e.value.prefix));
        }
        lemma_entries_pend(entries, k, st, g);
        let gv = pend(sy_soft(e.value.prefix), gap0());
        let sv = sy_value(e.value, st);
        let sc = sy_comma(st, last);
        let g2 = pend(sv, gv);
        let g3 = pend(se, g);
        let wk = seq![
            TokGap { tok: key_tok(e.key, st), nl: g.nl, blank: g.blank, prefix: g.text },
            TokGap { tok: sep_tok(st), nl: false, blank: false, prefix: Seq::empty() },
        ];
        let wv = tf(sv, gv);
        let wc = tf(sc, g2);
        let wr = tf(sr, g3);
        assert(w =~= wk + wv + wc + wr);
        lemma_win_split(c, pos, wk + wv + wc, wr);
        lemma_win_split(c, pos, wk + wv, wc);
        lemma_win_split(c, pos, wk, wv);
        assert(wk[0].tok == c.toks[pos]);
        assert(wk[0].prefix == c.prefixes[pos]);
        assert(wk[1].tok == c.toks[pos + 1]);
        lemma_value_head(e.value, st, gv);
        let p2 = pos + 2;
        let p3 = p2 + wv.len();
        if sc.len() > 0 {
            assert(sc == seq![Sym::T(TokM::Comma)]);
            lemma_tf_single(TokM::Comma, g2);
            assert(wc[0].tok == c.toks[p3]);
        } else {
            assert(sc == Seq::<Sym>::empty());
            lemma_tf_empty(g2);
        }
        assert(g3 == gap0());
        let mut g4 = g3;
        if k + 1 < entries.len() {
            let e2 = entries[k + 1];
            assert(entry_lex_ok(e2, k + 2 == entries.len(), st));
            let sb2 = sy_break(e2.key.prefix);
            assert(sr =~= sb2 + sy_root_from(entries, k + 1, st));
            lemma_tf_concat(sb2, sy_root_from(entries, k + 1, st), g3);
            lemma_break_gap(e2.key.prefix, g3);
            lemma_break_text(e2.key.prefix, g3);
            g4 = pend(sb2, g3);
            assert(g4.text == ret(e2.key.prefix)) by {
                assert(g3.text + ret(e2.key.prefix) =~= ret(e2.key.prefix));
            }
            lemma_entries_head(entries, k + 1, st, g3);
            assert(wr[0].tok == c.toks[p3 + wc.len()]);
            assert(wr[0].nl == c.nl[p3 + wc.len()]);
        } else {
            assert(sr == Seq::<Sym>::empty());
            lemma_tf_empty(g3);
        }
        match p_key(c, pos, s0) {
            Ok((key, p1, s1)) => {
                assert(key.value == e.key.value);
                match p_sep(c, p1, s1) {
                    Ok((q2, s2)) => {
                        assert(q2 == p2);
                        assert(s2 == note_separator(note_key_style(s0, key_kind(e.key, st)), st.eff_separator()));
                        lemma_pv(c, p2, e.value, st, gv, s2);
                        match p_value(c, p2, s2) {
                            Ok((value, q3, s3)) => {
                                let en = EntryM { key, value };
                                assert(ob_entry(e, last, st, s0) == ob_sep(st, last, s3));
                                assert(ob_entries(entries, k, st, s0) == ob_entries(entries, k + 1, st, ob_sep(st, last, s3)));
                                if k + 1 >= entries.len() {
                                    assert(ob_entries(entries, k + 1, st, ob_sep(st, last, s3)) == ob_sep(st, last, s3));
                                }
                                if k + 1 < entries.len() {
                                    let nx = if sc.len() > 0 { p3 + 1 } else { p3 };
                                    let s4 = if sc.len() > 0 { note_commas(s3, true) } else { note_commas(s3, false) };
                                    assert(ob_sep(st, last, s3) == s4);
                                    lemma_proot(c, nx, entries, k + 1, st, g4, s4);
                                    match p_bare_root(c, nx, s4) {
                                        Ok((rest, q, s5)) => {
                                            let es = seq![en] + rest;
                                            assert forall|j: int| 0 <= j < es.len() implies (#[trigger] es[j]).key.prefix
                                                == ret(entries[k + j].key.prefix) && es[j].key.value == entries[k
                                                + j].key.value && es[j].value.prefix == ret(entries[k + j].value.prefix)
                                                && reads_as(es[j].value.value, entries[k + j].value.value) by {
                                                if j > 0 {
                                                    assert(es[j] == rest[j - 1]);
                                                    assert(rest[j - 1].key.value == entries[k + 1 + (j - 1)].key.value);
                                                    assert(rest[j - 1].key.prefix == ret(entries[k + 1 + (j - 1)].key.prefix));
                                                }
                                            }
                                        },
                                        Err(_) => {},
                                    }
                                }
                            },
                            Err(_) => {},
                        }
                    },
                    Err(_) => {},
                }
            },
            Err(_) => {},
        }
    }
}

// ---------------------------------------------------------------------
// The parser's context of a lexed text, as tokens with their gaps.

pub proof fn lemma_real_toks_tf(items: Seq<ItemM>, g: Gap)
    ensures
        real_toks(items).len() == tf(syms(items), g).len(),
        forall|k: int| 0 <= k < real_toks(items).len() ==> real_toks(items)[k] == (#[trigger] tf(syms(items), g)[k]).tok,
    decreases items.len(),
{
    if items.len() > 0 {
        lemma_real_toks_tf(items.drop_last(), g);
        assert(syms(items).drop_last() =~= syms(items.drop_last()));
        assert(syms(items).last() == sym_of(items.last()));
    }
}

/// The scan state `sc` has recorded, for each gap between the real tokens
/// of `sy`, exactly the line breaks, empty lines and comments `sy` shows;
/// later gaps, up to `n`, are still clear.
pub open spec fn scan_ok(sc: ScanState, sy: Seq<Sym>, n: int) -> bool {
    &&& scan_shape(sc, sy, n)
    &&& scan_done(sc, tf(sy, gap0()))
    &&& scan_open(sc, pend(sy, gap0()))
    &&& scan_clear(sc, n)
}

pub open spec fn scan_shape(sc: ScanState, sy: Seq<Sym>, n: int) -> bool {
    &&& sc.had_newline.len() == n + 1
    &&& sc.blank_line.len() == n + 1
    &&& sc.prefixes.len() == n + 1
    &&& sc.gap_index == tf(sy, gap0()).len()
    &&& sc.gap_index <= n
    &&& sc.last_was_newline == pend(sy, gap0()).last_nl
    &&& sc.at_line_start == (sy.len() == 0 || sy.last() is N)
}

/// The gaps before the tokens `t` are recorded.
pub open spec fn scan_done(sc: ScanState, t: Seq<TokGap>) -> bool {
    forall|j: int|
        0 <= j < t.len() ==> sc.had_newline[j] == (#[trigger] t[j]).nl && sc.blank_line[j] == t[j].blank
            && sc.prefixes[j] == t[j].prefix
}

/// The current gap holds what `pg` says.
pub open spec fn scan_open(sc: ScanState, pg: Gap) -> bool {
    &&& sc.had_newline[sc.gap_index] == pg.nl
    &&& sc.blank_line[sc.gap_index] == pg.blank
    &&& sc.prefixes[sc.gap_index] == pg.text
}

/// The gaps after the current one are clear.
pub open spec fn scan_clear(sc: ScanState, n: int) -> bool {
    forall|j: int|
        sc.gap_index < j <= n ==> !(#[trigger] sc.had_newline[j]) && !sc.blank_line[j] && sc.prefixes[j]
            == Seq::<char>::empty()
}

/// Each comment in `sy` is the first thing on its line: it comes first,
/// or right after a line break.
pub open spec fn line_initial(sy: Seq<Sym>) -> bool {
    forall|k: int| 0 < k < sy.len() && (#[trigger] sy[k]) is C ==> sy[k - 1] is N
}

/// The scan after `k` items, against the symbols of those items.
pub open spec fn scan_inv(items: Seq<ItemM>, k: int) -> bool {
    &&& scan_ok(scan_upto(items, k), syms(items.take(k)), count_real(items))
    &&& scan_upto(items, k).gap_index == count_real(items.take(k))
}

proof fn lemma_scan_inv_base(items: Seq<ItemM>)
    ensures
        scan_inv(items, 0),
{
    let n = count_real(items);
    lemma_count_real_nonneg(items);
    assert(items.take(0) =~= Seq::<ItemM>::empty());
    assert(syms(items.take(0)) =~= Seq::<Sym>::empty());
    assert(count_real(Seq::<ItemM>::empty()) == 0);
    lemma_tf_empty(gap0());
    let sc = scan_upto(items, 0);
    assert(sc == crate::trivia::initial_state(n));
    assert forall|j: int| sc.gap_index < j <= n implies !(#[trigger] sc.had_newline[j]) && !sc.blank_line[j]
        && sc.prefixes[j] == Seq::<char>::empty() by {}
    assert(scan_clear(sc, n));
    assert(scan_done(sc, tf(syms(items.take(0)), gap0())));
    assert(scan_ok(sc, syms(items.take(0)), n));
}

/// Facts shared by the three kinds of step of the scan.
proof fn lemma_scan_step_common(items: Seq<ItemM>, k: int)
    requires
        0 < k <= items.len(),
    ensures
        syms(items.take(k)).drop_last() == syms(items.take(k - 1)),
        syms(items.take(k)).last() == sym_of(items[k - 1]),
        scan_upto(items, k) == scan_step(scan_upto(items, k - 1), items[k - 1]),
        count_real(items.take(k)) == count_real(items.take(k - 1)) + (if items[k - 1] is Real { 1int } else { 0int }),
        count_real(items.take(k)) <= count_real(items),
{
    lemma_count_real_take(items, k - 1);
    lemma_count_real_bound(items, k);
    let sy = syms(items.take(k - 1));
    let sy2 = syms(items.take(k));
    assert(sy2 =~= sy.push(sym_of(items[k - 1])));
    assert(sy2.drop_last() =~= sy);
}

#[verifier::rlimit(30)]
proof fn lemma_scan_step_newline(items: Seq<ItemM>, k: int)
    requires
        0 < k <= items.len(),
        line_initial(syms(items)),
        scan_inv(items, k - 1),
        items[k - 1] is Newline,
    ensures
        scan_inv(items, k),
{
    lemma_scan_step_common(items, k);
    let n = count_real(items);
    let sc = scan_upto(items, k - 1);
    let sy = syms(items.take(k - 1));
    let sy2 = syms(items.take(k));
    let pg = pend(sy, gap0());
    let t = tf(sy, gap0());
    let sc2 = scan_upto(items, k);
    let gi = sc.gap_index;
    assert(tf(sy2, gap0()) == t);
    assert(pend(sy2, gap0()) == gap_step(pg, Sym::N));
    assert(sc2.gap_index == gi);
    assert(sc2.had_newline == sc.had_newline.update(gi, true));
    assert(sc2.prefixes == sc.prefixes);
    assert(sc2.at_line_start);
    assert(sc2.blank_line == if sc.last_was_newline { sc.blank_line.update(gi, true) } else { sc.blank_line });
    assert forall|j: int| 0 <= j < t.len() implies sc2.had_newline[j] == (#[trigger] t[j]).nl && sc2.blank_line[j]
        == t[j].blank && sc2.prefixes[j] == t[j].prefix by {
        assert(sc2.had_newline[j] == sc.had_newline[j]);
        assert(sc2.blank_line[j] == sc.blank_line[j]);
    }
    assert forall|j: int| sc2.gap_index < j <= n implies !(#[trigger] sc2.had_newline[j]) && !sc2.blank_line[j]
        && sc2.prefixes[j] == Seq::<char>::empty() by {
        assert(sc2.had_newline[j] == sc.had_newline[j]);
        assert(sc2.blank_line[j] == sc.blank_line[j]);
        assert(!sc.had_newline[j]);
    }
    assert(scan_done(sc2, tf(sy2, gap0())));
    assert(scan_clear(sc2, n));
    assert(scan_open(sc2, pend(sy2, gap0())));
    assert(scan_shape(sc2, sy2, n));
    assert(scan_ok(sc2, sy2, n));
}

/// Clearing is kept when only the current gap changes.
proof fn lemma_scan_clear_kept(sc: ScanState, sc2: ScanState, n: int)
    requires
        scan_clear(sc, n),
        sc2.gap_index == sc.gap_index,
        sc2.had_newline.len() == sc.had_newline.len(),
        sc2.blank_line.len() == sc.blank_line.len(),
        sc2.prefixes.len() == sc.prefixes.len(),
        forall|j: int| sc.gap_index < j < sc.had_newline.len() ==> sc2.had_newline[j] == sc.had_newline[j],
        forall|j: int| sc.gap_index < j < sc.blank_line.len() ==> sc2.blank_line[j] == sc.blank_line[j],
        forall|j: int| sc.gap_index < j < sc.prefixes.len() ==> sc2.prefixes[j] == sc.prefixes[j],
        sc.had_newline.len() == n + 1,
        sc.blank_line.len() == n + 1,
        sc.prefixes.len() == n + 1,
    ensures
        scan_clear(sc2, n),
{
    assert forall|j: int| sc2.gap_index < j <= n implies !(#[trigger] sc2.had_newline[j]) && !sc2.blank_line[j]
        && sc2.prefixes[j] == Seq::<char>::empty() by {
        assert(!sc.had_newline[j]);
    }
}

#[verifier::rlimit(30)]
proof fn lemma_scan_step_comment(items: Seq<ItemM>, k: int)
    requires
        0 < k <= items.len(),
        line_initial(syms(items)),
        scan_inv(items, k - 1),
        items[k - 1] is Comment,
    ensures
        scan_inv(items, k),
{
    lemma_scan_step_common(items, k);
    let n = count_real(items);
    let sc = scan_upto(items, k - 1);
    let sy = syms(items.take(k - 1));
    let sy2 = syms(items.take(k));
    let pg = pend(sy, gap0());
    let t = tf(sy, gap0());
    let sc2 = scan_upto(items, k);
    assert(tf(sy2, gap0()) == t);
    assert(pend(sy2, gap0()) == gap_step(pg, Sym::C(items[k - 1]->Comment_0)));
    assert(sc2.gap_index == sc.gap_index);
    assert(sc2.had_newline == sc.had_newline);
    assert(sc2.blank_line == sc.blank_line);
    let gi = sc.gap_index;
    let text = items[k - 1]->Comment_0;
    assert(sc.at_line_start) by {
        assert(syms(items)[k - 1] == sym_of(items[k - 1]));
        if k - 1 > 0 {
            assert(syms(items)[k - 2] is N);
            assert(sy.last() == sym_of(items[k - 2]));
        }
    }
    assert(sc2.prefixes == sc.prefixes.update(gi, sc.prefixes[gi] + seq!['\n'] + text));
    assert(!sc2.at_line_start);
    assert forall|j: int| 0 <= j < t.len() implies sc2.had_newline[j] == (#[trigger] t[j]).nl && sc2.blank_line[j]
        == t[j].blank && sc2.prefixes[j] == t[j].prefix by {
        assert(sc2.prefixes[j] == sc.prefixes[j]);
    }
    lemma_scan_clear_kept(sc, sc2, n);
    assert(sy2.last() == Sym::C(text));
    assert(sc2.prefixes[gi] == pend(sy2, gap0()).text);
    assert(sc2.at_line_start == (sy2.len() == 0 || sy2.last() is N));
    assert(sc2.last_was_newline == pend(sy2, gap0()).last_nl);
    assert(sc2.prefixes.len() == n + 1);
    assert(sc2.had_newline[sc2.gap_index] == pend(sy2, gap0()).nl);
    assert(sc2.blank_line[sc2.gap_index] == pend(sy2, gap0()).blank);
    assert(sc2.gap_index == tf(sy2, gap0()).len());
    assert(scan_done(sc2, tf(sy2, gap0())));
    assert(scan_clear(sc2, n));
    assert(scan_open(sc2, pend(sy2, gap0())));
    assert(scan_shape(sc2, sy2, n));
    assert(scan_ok(sc2, sy2, n));
}

#[verifier::rlimit(30)]
proof fn lemma_scan_step_real(items: Seq<ItemM>, k: int)
    requires
        0 < k <= items.len(),
        line_initial(syms(items)),
        scan_inv(items, k - 1),
        items[k - 1] is Real,
    ensures
        scan_inv(items, k),
{
    lemma_scan_step_common(items, k);
    let n = count_real(items);
    let sc = scan_upto(items, k - 1);
    let sy = syms(items.take(k - 1));
    let sy2 = syms(items.take(k));
    let pg = pend(sy, gap0());
    let t = tf(sy, gap0());
    let sc2 = scan_upto(items, k);
    let gi = sc.gap_index;
    let tok = items[k - 1]->Real_0;
    let t2 = tf(sy2, gap0());
    assert(t2 == t.push(TokGap { tok, nl: pg.nl, blank: pg.blank, prefix: pg.text }));
    assert(sc2.gap_index == gi + 1);
    assert(sc2.had_newline == sc.had_newline);
    assert(sc2.blank_line == sc.blank_line);
    assert(sc2.prefixes == sc.prefixes);
    assert(!sc2.at_line_start);
    assert forall|j: int| 0 <= j < t2.len() implies sc2.had_newline[j] == (#[trigger] t2[j]).nl && sc2.blank_line[j]
        == t2[j].blank && sc2.prefixes[j] == t2[j].prefix by {
        if j < t.len() {
            assert(t2[j] == t[j]);
        }
    }
    assert(!sc.had_newline[gi + 1]);
    assert forall|j: int| sc2.gap_index < j <= n implies !(#[trigger] sc2.had_newline[j]) && !sc2.blank_line[j]
        && sc2.prefixes[j] == Seq::<char>::empty() by {
        assert(!sc.had_newline[j]);
    }
    assert(scan_done(sc2, tf(sy2, gap0())));
    assert(scan_clear(sc2, n));
    assert(scan_open(sc2, pend(sy2, gap0())));
    assert(scan_shape(sc2, sy2, n));
    assert(scan_ok(sc2, sy2, n));
}

proof fn lemma_scan_tf(items: Seq<ItemM>, k: int)
    requires
        0 <= k <= items.len(),
        line_initial(syms(items)),
    ensures
        scan_inv(items, k),
    decreases k,
{
    if k == 0 {
        lemma_scan_inv_base(items);
    } else {
        lemma_scan_tf(items, k - 1);
        match items[k - 1] {
            ItemM::Newline => lemma_scan_step_newline(items, k),
            ItemM::Comment(_) => lemma_scan_step_comment(items, k),
            ItemM::Real(_, _, _) => lemma_scan_step_real(items, k),
        }
    }
}

/// The parser's context of a lexed text holds its real tokens with their
/// gaps.
pub proof fn lemma_ctx_win(s: Seq<char>, items: Seq<ItemM>)
    requires
        line_initial(syms(items)),
    ensures
        win(ctx_of(s, items), 0, tf(syms(items), gap0())),
        ctx_of(s, items).toks.len() == tf(syms(items), gap0()).len(),
        ctx_of(s, items).prefixes.len() == ctx_of(s, items).toks.len() + 1,
        ctx_of(s, items).prefixes[ctx_of(s, items).toks.len() as int] == pend(syms(items), gap0()).text,
{
    lemma_real_toks_tf(items, gap0());
    lemma_scan_tf(items, items.len() as int);
    assert(items.take(items.len() as int) =~= items);
    crate::parser::lemma_real_toks_count(items);
    let c = ctx_of(s, items);
    let t = tf(syms(items), gap0());
    assert forall|k: int| 0 <= k < t.len() implies c.toks[0 + k] == (#[trigger] t[k]).tok && c.nl[0 + k] == t[k].nl
        && c.blank[0 + k] == t[k].blank && c.prefixes[0 + k] == t[k].prefix by {
        assert(c.toks[k] == real_toks(items)[k]);
    }
}

// ---------------------------------------------------------------------
// The ends of the document text.

pub proof fn lemma_ind0(st: Style)
    ensures
        ind(st, 0) == Seq::<char>::empty(),
{
    assert(ind(st, 0) =~= Seq::<char>::empty());
}

/// The shape of the comment lines of a nonempty run of comment lines.
proof fn lemma_wcl_shape(q: Seq<char>, d: int, st: Style)
    requires
        comment_lines(q),
        q.len() > 0,
    ensures
        wcl(q, d, st).len() > 0,
        wcl(q, d, st)[0] == '\n',
        wcl(q, d, st).last() != '\n',
        ({
            let e = line_end(q, 1);
            let c1 = q.subrange(1, e);
            &&& 1 < e <= q.len()
            &&& is_comment_text(c1)
            &&& comment_lines(q.subrange(e, q.len() as int))
            &&& wcl(q, d, st).drop_first() == ind(st, d) + trim(c1) + wcl(q.subrange(e, q.len() as int), d, st)
            &&& sy_cl(q).drop_first() == seq![Sym::C(trim(c1))] + sy_cl(q.subrange(e, q.len() as int))
        }),
    decreases q.len(),
{
    let e = line_end(q, 1);
    lemma_line_end(q, 1);
    let c1 = q.subrange(1, e);
    let rest = q.subrange(e, q.len() as int);
    assert(is_comment_text(c1)) by {
        assert forall|k: int| 0 <= k < c1.len() implies !is_line_break(#[trigger] c1[k]) by {
            assert(c1[k] == q[1 + k]);
        }
    }
    lemma_trim_comment(c1);
    let wl = w_line(c1, d, st);
    assert(wl =~= seq!['\n'] + ind(st, d) + trim(c1));
    assert(wcl(q, d, st) == wl + wcl(rest, d, st));
    assert(wcl(q, d, st).drop_first() =~= ind(st, d) + trim(c1) + wcl(rest, d, st));
    assert(sy_cl(q) == seq![Sym::N, Sym::C(trim(c1))] + sy_cl(rest));
    assert(sy_cl(q).drop_first() =~= seq![Sym::C(trim(c1))] + sy_cl(rest));
    if rest.len() > 0 {
        lemma_wcl_shape(rest, d, st);
        assert(wcl(q, d, st).last() == wcl(rest, d, st).last());
    } else {
        assert(wcl(rest, d, st) == Seq::<char>::empty());
        assert(wcl(q, d, st).last() == trim(c1).last());
        assert(trim(c1).last() == trim(c1)[trim(c1).len() - 1]);
    }
}

/// What is left of a break once its leading line breaks are cut.
pub open spec fn front_rest(p: Seq<char>, d: int, st: Style) -> Seq<char> {
    if p.len() == 0 {
        ind(st, d)
    } else {
        wcl(p, d, st).drop_first() + seq!['\n'] + ind(st, d)
    }
}

pub open spec fn sy_front(p: Seq<char>) -> Seq<Sym> {
    if p.len() == 0 {
        Seq::empty()
    } else {
        sy_cl(p).drop_first() + seq![Sym::N]
    }
}

/// A break is its leading line breaks, then [`front_rest`], which does
/// not start with a line break.
proof fn lemma_break_front(p: Seq<char>, d: int, st: Style)
    requires
        comment_lines(p),
    ensures
        w_break(p, d, st) == (if p.len() == 0 { seq!['\n'] } else { seq!['\n', '\n'] }) + front_rest(p, d, st),
        front_rest(p, d, st).len() > 0 ==> front_rest(p, d, st)[0] != '\n',
        front_rest(p, d, st).len() > 0 ==> front_rest(p, d, st)[0] == indent_char(st.eff_indent().ch)
            || front_rest(p, d, st)[0] == '#',
        ind(st, d).len() > 0 ==> front_rest(p, d, st).len() > 0,
        no_tok(sy_front(p)),
{
    lemma_w_prefix_cl(p, d, st);
    assert(w_break(p, d, st) == w_prefix(p, d, st) + seq!['\n'] + ind(st, d));
    let r = front_rest(p, d, st);
    if p.len() == 0 {
        assert(w_break(p, d, st) =~= seq!['\n'] + r);
        if r.len() > 0 {
            assert(r[0] == indent_char(st.eff_indent().ch));
        }
        assert(sy_front(p) =~= Seq::<Sym>::empty());
    } else {
        lemma_wcl_shape(p, d, st);
        let w = wcl(p, d, st);
        assert(w =~= seq!['\n'] + w.drop_first());
        assert(w_break(p, d, st) =~= seq!['\n', '\n'] + r);
        let e = line_end(p, 1);
        let c1 = p.subrange(1, e);
        lemma_trim_comment(c1);
        let id = ind(st, d);
        assert(r[0] != '\n' && (r[0] == indent_char(st.eff_indent().ch) || r[0] == '#')) by {
            if id.len() > 0 {
                assert(r[0] == id[0]);
                assert(id[0] == indent_char(st.eff_indent().ch));
            } else {
                assert(r[0] == trim(c1)[0]);
            }
        }
        lemma_no_tok_cl(p);
        let sf = sy_front(p);
        assert forall|k: int| 0 <= k < sf.len() implies !(#[trigger] sf[k] is T) by {
            if k < sy_cl(p).len() - 1 {
                assert(sf[k] == sy_cl(p)[k + 1]);
            }
        }
    }
}

/// [`front_rest`] lexes to [`sy_front`].
proof fn lemma_lx_front(s: Seq<char>, i: int, p: Seq<char>, d: int, st: Style)
    requires
        comment_lines(p),
        at_is(s, i, front_rest(p, d, st)),
    ensures
        lx(s, i, i + front_rest(p, d, st).len(), sy_front(p)),
{
    if p.len() == 0 {
        lemma_lx_ind(s, i, d, st);
        assert(sy_front(p) =~= Seq::<Sym>::empty());
    } else {
        lemma_wcl_shape(p, d, st);
        let e = line_end(p, 1);
        let c1 = p.subrange(1, e);
        let rest = p.subrange(e, p.len() as int);
        lemma_trim_comment(c1);
        let id = ind(st, d);
        let t = trim(c1);
        let wr = wcl(rest, d, st);
        assert(front_rest(p, d, st) =~= id + t + wr + seq!['\n'] + id);
        lemma_at_is_split(s, i, id + t + wr + seq!['\n'], id);
        lemma_at_is_split(s, i, id + t + wr, seq!['\n']);
        lemma_at_is_split(s, i, id + t, wr);
        lemma_at_is_split(s, i, id, t);
        let j1 = i + id.len();
        let j2 = j1 + t.len();
        let j3 = j2 + wr.len();
        lemma_at_is_char(s, j3, seq!['\n'], 0);
        lemma_lx_ind(s, i, d, st);
        if wr.len() > 0 {
            lemma_wcl_shape(rest, d, st);
            lemma_at_is_char(s, j2, wr, 0);
        }
        lemma_lx_comment(s, j1, t);
        lemma_lx_wcl(s, j2, rest, d, st);
        lemma_lx_nl(s, j3);
        lemma_lx_ind(s, j3 + 1, d, st);
        lemma_lx_trans(s, i, j1, j2, Seq::empty(), seq![Sym::C(t)]);
        lemma_lx_trans(s, i, j2, j3, Seq::<Sym>::empty() + seq![Sym::C(t)], sy_cl(rest));
        lemma_lx_trans(s, i, j3, j3 + 1, Seq::<Sym>::empty() + seq![Sym::C(t)] + sy_cl(rest), seq![Sym::N]);
        lemma_lx_trans(
            s,
            i,
            j3 + 1,
            j3 + 1 + id.len(),
            Seq::<Sym>::empty() + seq![Sym::C(t)] + sy_cl(rest) + seq![Sym::N],
            Seq::empty(),
        );
        assert(Seq::<Sym>::empty() + seq![Sym::C(t)] + sy_cl(rest) + seq![Sym::N] + Seq::<Sym>::empty() =~= sy_front(p));
    }
}

/// `nl_skip` from `i` stops at `a` when only line breaks lie between.
pub proof fn lemma_nl_skip_at(s: Seq<char>, i: int, a: int)
    requires
        0 <= i <= a <= s.len(),
        forall|k: int| i <= k < a ==> #[trigger] s[k] == '\n',
        a == s.len() || s[a] != '\n',
    ensures
        nl_skip(s, i) == a,
    decreases a - i,
{
    if i < a {
        lemma_nl_skip_at(s, i + 1, a);
    }
}

/// `nl_back` from `j` stops at `b` when only line breaks lie between.
pub proof fn lemma_nl_back_at(s: Seq<char>, lo: int, b: int, j: int)
    requires
        0 <= lo <= b <= j <= s.len(),
        forall|k: int| b <= k < j ==> #[trigger] s[k] == '\n',
        b == lo || s[b - 1] != '\n',
    ensures
        nl_back(s, lo, j) == b,
    decreases j - b,
{
    if b < j {
        lemma_nl_back_at(s, lo, b, j - 1);
    }
}

/// A number literal ends in a digit.
proof fn lemma_literal_last(raw: Seq<char>)
    requires
        valid_literal(raw),
    ensures
        raw.len() > 0,
        is_digit(raw.last()),
{
    let n = raw.len() as int;
    assert(n > 0) by {
        if n == 0 {
            assert(at(raw, 0) == '\0');
        }
    }
    let i0 = if at(raw, 0) == '-' { 1int } else { 0int };
    if at(raw, i0) != '0' {
        lemma_digits_end(raw, i0 + 1);
    }
    let i1 = if at(raw, i0) == '0' { i0 + 1 } else { digits_end(raw, i0 + 1) };
    if at(raw, i1) == '.' {
        lemma_digits_end(raw, i1 + 1);
    }
    let i2 = if at(raw, i1) == '.' { digits_end(raw, i1 + 1) } else { i1 };
    if at(raw, i2) == 'e' || at(raw, i2) == 'E' {
        let j = if at(raw, i2 + 1) == '+' || at(raw, i2 + 1) == '-' { i2 + 2 } else { i2 + 1 };
        lemma_digits_end(raw, j);
        assert(is_digit(raw[n - 1]));
    } else {
        assert(i2 == n);
        if at(raw, i1) == '.' {
            assert(is_digit(raw[n - 1]));
        } else if at(raw, i0) == '0' {
            assert(is_digit(raw[n - 1]));
        } else {
            assert(is_digit(raw[n - 1]));
        }
    }
}

proof fn lemma_verb_last(t: Seq<char>, i: int, start: int, first: bool, d: int, st: Style)
    requires
        0 <= start <= i <= t.len(),
        forall|m: int| start <= m < i ==> #[trigger] t[m] != '\n',
    ensures
        w_verbatim_from(t, i, start, first, d, st).len() > 0,
        w_verbatim_from(t, i, start, first, d, st).last() != '\n',
    decreases t.len() - i,
{
    if i < t.len() {
        if t[i] == '\n' {
            lemma_verb_last(t, i + 1, i + 1, false, d, st);
        } else {
            lemma_verb_last(t, i + 1, start, first, d, st);
        }
    } else {
        let w = w_verbatim_from(t, i, start, first, d, st);
        let seg = t.subrange(start, t.len() as int);
        if seg.len() > 0 {
            assert(w.last() == seg.last());
            assert(seg.last() == t[t.len() - 1]);
        } else {
            assert(w.last() == '|');
        }
    }
}

/// The written text of a value is not empty and does not end in a line
/// break.
proof fn lemma_value_last(n: NodeM, d: int, st: Style)
    requires
        lex_ok(n, st),
    ensures
        w_value(n, d, st).len() > 0,
        w_value(n, d, st).last() != '\n',
{
    let w = w_value(n, d, st);
    match n.value {
        ValueM::Null => {
            reveal_strlit("null");
        },
        ValueM::Bool(b) => {
            reveal_strlit("true");
            reveal_strlit("false");
        },
        ValueM::Number(raw) => {
            lemma_literal_last(raw);
        },
        ValueM::Str(t) => {
            if st.eff_verbatim_strings() && t.contains('\n') {
                lemma_verb_last(t, 0, 0, true, d, st);
            } else {
                assert(w.last() == quote_char(st.eff_value_quote()));
            }
        },
        ValueM::Array { .. } => {
            assert(w.last() == ']');
        },
        ValueM::Object { .. } => {
            assert(w.last() == '}');
        },
    }
}

proof fn lemma_entries_last(entries: Seq<EntryM>, k: int, d: int, st: Style)
    requires
        0 <= k < entries.len(),
        forall|m: int| 0 <= m < entries.len() ==> entry_lex_ok(#[trigger] entries[m], m + 1 == entries.len(), st),
    ensures
        w_entries_from(entries, k, d, st).len() > 0,
        w_entries_from(entries, k, d, st).last() != '\n',
        (w_entry(entries[k], k + 1 == entries.len(), d + 1, st) + w_entries_from(entries, k + 1, d, st)).last() != '\n',
    decreases entries.len() - k,
{
    let e = entries[k];
    let last = k + 1 == entries.len();
    assert(entry_lex_ok(e, last, st));
    lemma_w_entries_unfold(entries, k, d, st);
    let we = w_entry(e, last, d + 1, st);
    let r = w_entries_from(entries, k + 1, d, st);
    lemma_value_last(e.value, d + 1, st);
    let c = w_comma(st, last);
    assert(we.last() != '\n') by {
        if c.len() > 0 {
            assert(we.last() == ',');
        } else {
            assert(we =~= w_key(e.key, st) + w_sep(st) + w_soft(e.value.prefix, d + 1, st) + w_value(e.value, d + 1, st));
        }
    }
    if k + 1 < entries.len() {
        lemma_entries_last(entries, k + 1, d, st);
        assert((we + r).last() == r.last());
    } else {
        assert(r == Seq::<char>::empty());
        assert(we + r =~= we);
    }
    assert(w_entries_from(entries, k, d, st).last() == (we + r).last());
}

/// The text of a document with a braced root: the root's comment lines
/// (without the leading line breaks), the root, and the suffix.
proof fn lemma_text_braced(d: DocumentM)
    requires
        !d.bare_root,
        d.root.value is Array || d.root.value is Object,
        comment_lines(d.root.prefix),
        comment_lines(d.suffix),
        lex_ok(d.root, d.style),
    ensures
        write_spec(d) == front_rest(d.root.prefix, 0, d.style) + w_value(d.root, 0, d.style) + w_break(
            d.suffix,
            0,
            d.style,
        ),
{
    let st = d.style;
    let p = d.root.prefix;
    let fr = front_rest(p, 0, st);
    let v = w_value(d.root, 0, st);
    let b = w_break(d.suffix, 0, st);
    let lead = if p.len() == 0 { seq!['\n'] } else { seq!['\n', '\n'] };
    lemma_break_front(p, 0, st);
    lemma_ind0(st);
    let raw = w_document_raw(d);
    assert(raw =~= lead + fr + v + b);
    let a = lead.len() as int;
    assert(v[0] == '[' || v[0] == '{');
    assert forall|k: int| 0 <= k < a implies #[trigger] raw[k] == '\n' by {}
    assert(raw[a] != '\n') by {
        if fr.len() > 0 {
            assert(raw[a] == fr[0]);
        } else {
            assert(raw[a] == v[0]);
        }
    }
    lemma_nl_skip_at(raw, 0, a);
    lemma_w_prefix_cl(d.suffix, 0, st);
    lemma_value_last(d.root, 0, st);
    let len = raw.len() as int;
    assert(b == w_prefix(d.suffix, 0, st) + seq!['\n'] + ind(st, 0));
    assert(raw[len - 1] == '\n');
    assert(raw[len - 2] != '\n') by {
        if d.suffix.len() == 0 {
            assert(raw[len - 2] == v.last());
        } else {
            lemma_wcl_shape(d.suffix, 0, st);
            let wc = wcl(d.suffix, 0, st);
            assert(b =~= seq!['\n'] + wc + seq!['\n']);
            assert(raw[len - 2] == wc.last());
        }
    }
    assert forall|k: int| len - 1 <= k < len implies #[trigger] raw[k] == '\n' by {}
    lemma_nl_back_at(raw, a, len - 1, len);
    assert(write_spec(d) == raw.subrange(a, len - 1) + seq!['\n']);
    assert(raw.subrange(a, len - 1) + seq!['\n'] =~= fr + v + b);
}

/// An entry's text starts with its key's first character, which is not a
/// line break.
proof fn lemma_entry_first(e: EntryM, is_last: bool, d: int, st: Style)
    requires
        e.key.value is Str,
    ensures
        w_entry(e, is_last, d, st).len() > 0,
        w_entry(e, is_last, d, st)[0] != '\n',
{
    let k = w_key(e.key, st);
    let text = key_text(e.key);
    assert(k.len() > 0 && k[0] != '\n') by {
        if st.eff_key_style() == KeyStyle::Bare && is_valid_bare_spec(text) {
            assert(k == text);
            assert(is_id_start_spec(text[0]));
        }
    }
    assert(w_entry(e, is_last, d, st)[0] == k[0]);
}

/// The text of a brace-less root with entries: the first key's comment
/// lines (without the leading line breaks), the entries, a line break and
/// the suffix.
#[verifier::rlimit(40)]
proof fn lemma_text_bare(d: DocumentM)
    requires
        d.bare_root,
        d.root.value is Object,
        d.root.value->entries.len() > 0,
        comment_lines(d.suffix),
        lex_ok(d.root, d.style),
    ensures
        ({
            let entries = d.root.value->entries;
            let st = d.style;
            write_spec(d) == front_rest(entries[0].key.prefix, 0, st) + (w_entry(entries[0], 1 == entries.len(), 0, st)
                + w_entries_from(entries, 1, -1, st)) + seq!['\n'] + (if d.suffix.len() == 0 {
                Seq::<char>::empty()
            } else {
                w_break(d.suffix, 0, st)
            })
        }),
{
    let st = d.style;
    let entries = d.root.value->entries;
    let e0 = entries[0];
    assert(entry_lex_ok(e0, 1 == entries.len(), st));
    let p = e0.key.prefix;
    let fr = front_rest(p, 0, st);
    let ee = w_entry(e0, 1 == entries.len(), 0, st) + w_entries_from(entries, 1, -1, st);
    let b = w_break(d.suffix, 0, st);
    let lead = if p.len() == 0 { seq!['\n'] } else { seq!['\n', '\n'] };
    lemma_break_front(p, 0, st);
    lemma_ind0(st);
    lemma_w_entries_unfold(entries, 0, -1, st);
    let raw = w_document_raw(d);
    assert(w_break(Seq::<char>::empty(), 0, st) =~= seq!['\n']);
    assert(raw =~= lead + fr + ee + seq!['\n'] + b);
    let a = lead.len() as int;
    lemma_entries_last(entries, 0, -1, st);
    lemma_entry_first(e0, 1 == entries.len(), 0, st);
    assert(ee[0] == w_entry(e0, 1 == entries.len(), 0, st)[0]);
    assert forall|j: int| 0 <= j < a implies #[trigger] raw[j] == '\n' by {}
    assert(raw[a] != '\n') by {
        if fr.len() > 0 {
            assert(raw[a] == fr[0]);
        } else {
            assert(raw[a] == ee[0]);
        }
    }
    lemma_nl_skip_at(raw, 0, a);
    lemma_w_prefix_cl(d.suffix, 0, st);
    let len = raw.len() as int;
    assert(b == w_prefix(d.suffix, 0, st) + seq!['\n'] + ind(st, 0));
    if d.suffix.len() == 0 {
        assert(raw =~= lead + fr + ee + seq!['\n', '\n']);
        assert(raw[len - 3] == ee.last());
        assert forall|j: int| len - 2 <= j < len implies #[trigger] raw[j] == '\n' by {}
        lemma_nl_back_at(raw, a, len - 2, len);
        assert(write_spec(d) == raw.subrange(a, len - 2) + seq!['\n']);
        assert(raw.subrange(a, len - 2) + seq!['\n'] =~= fr + ee + seq!['\n'] + Seq::<char>::empty());
    } else {
        lemma_wcl_shape(d.suffix, 0, st);
        let wc = wcl(d.suffix, 0, st);
        assert(b =~= seq!['\n'] + wc + seq!['\n']);
        assert(raw[len - 2] == wc.last());
        assert forall|j: int| len - 1 <= j < len implies #[trigger] raw[j] == '\n' by {}
        lemma_nl_back_at(raw, a, len - 1, len);
        assert(write_spec(d) == raw.subrange(a, len - 1) + seq!['\n']);
        assert(raw.subrange(a, len - 1) + seq!['\n'] =~= fr + ee + seq!['\n'] + b);
    }
}

/// The text of a brace-less root without entries: the suffix's comment
/// lines, or a single line break.
proof fn lemma_text_empty(d: DocumentM)
    requires
        d.bare_root,
        d.root.value is Object,
        d.root.value->entries.len() == 0,
        comment_lines(d.suffix),
    ensures
        write_spec(d) == (if d.suffix.len() == 0 { seq!['\n'] } else { front_rest(d.suffix, 0, d.style) }),
{
    let st = d.style;
    let entries = d.root.value->entries;
    lemma_ind0(st);
    lemma_w_prefix_cl(d.suffix, 0, st);
    let b = w_break(d.suffix, 0, st);
    assert(b == w_prefix(d.suffix, 0, st) + seq!['\n'] + ind(st, 0));
    assert(w_entries_from(entries, 0, 0, st) == Seq::<char>::empty());
    assert(w_break(Seq::<char>::empty(), 0, st) =~= seq!['\n']);
    let raw = w_document_raw(d);
    assert(raw =~= seq!['\n'] + b);
    let len = raw.len() as int;
    if d.suffix.len() == 0 {
        assert(raw =~= seq!['\n', '\n']);
        assert forall|j: int| 0 <= j < 2 implies #[trigger] raw[j] == '\n' by {}
        lemma_nl_skip_at(raw, 0, 2);
        lemma_nl_back_at(raw, 2, 2, 2);
        assert(write_spec(d) =~= seq!['\n']);
    } else {
        lemma_wcl_shape(d.suffix, 0, st);
        let wc = wcl(d.suffix, 0, st);
        let x = wc.drop_first();
        assert(raw =~= seq!['\n', '\n', '\n'] + x + seq!['\n']);
        let e = line_end(d.suffix, 1);
        let c1 = d.suffix.subrange(1, e);
        lemma_trim_comment(c1);
        assert(x[0] == trim(c1)[0]);
        assert forall|j: int| 0 <= j < 3 implies #[trigger] raw[j] == '\n' by {}
        lemma_nl_skip_at(raw, 0, 3);
        assert(raw[len - 2] == wc.last());
        assert forall|j: int| len - 1 <= j < len implies #[trigger] raw[j] == '\n' by {}
        lemma_nl_back_at(raw, 3, len - 1, len);
        assert(write_spec(d) == raw.subrange(3, len - 1) + seq!['\n']);
        assert(raw.subrange(3, len - 1) + seq!['\n'] =~= x + seq!['\n'] + ind(st, 0));
    }
}

// ---------------------------------------------------------------------
// A written document reads back.

/// A brace-less root whose first key, with no comment before it, is
/// written bare and starts with U+FEFF: the written text then starts with
/// what reads as a byte-order mark, which the parser skips.
pub open spec fn bom_key_first(d: DocumentM) -> bool {
    &&& d.bare_root
    &&& d.root.value matches ValueM::Object { entries, .. } && entries.len() > 0 && entries[0].key.prefix.len() == 0
        && bare_written(key_text(entries[0].key), d.style) && key_text(entries[0].key)[0] == '\u{FEFF}'
}

/// What a document needs for its text to read back with the same
/// values (see [`lex_ok`] and [`read_ok`]; a brace-less root's text must
/// not start with a byte-order mark, see [`bom_key_first`]).
pub open spec fn doc_rt_ok(d: DocumentM) -> bool {
    &&& comment_lines(d.suffix)
    &&& lex_ok(d.root, d.style)
    &&& read_ok(d.root, d.style)
    &&& !bom_key_first(d)
    &&& if d.bare_root {
        d.root.value is Object && d.root.value->Object_trailing.len() == 0
    } else {
        d.root.value is Array || d.root.value is Object
    }
}

proof fn lemma_at_is_whole(s: Seq<char>)
    ensures
        at_is(s, 0, s),
{
    assert(s.subrange(0, s.len() as int) =~= s);
}

/// The text of a written document with a braced root lexes to `sy`.
proof fn lemma_lex_braced(d: DocumentM) -> (sy: Seq<Sym>)
    requires
        doc_rt_ok(d),
        !d.bare_root,
    ensures
        lsyms(lex_from(write_spec(d), 0)) == Some(sy),
        write_spec(d).len() > 0,
        write_spec(d)[0] != '\u{FEFF}',
        tf(sy, gap0()) == tf(sy_value(d.root, d.style), pend(sy_front(d.root.prefix), gap0())),
        line_initial(sy),
        pend(sy, gap0()) == pend(sy_break(d.suffix), gap0()),
{
    let st = d.style;
    let text = write_spec(d);
    lemma_at_is_whole(text);
    let p = d.root.prefix;
    assert(lex_ok(d.root, st));
    lemma_text_braced(d);
    let fr = front_rest(p, 0, st);
    let v = w_value(d.root, 0, st);
    let b = w_break(d.suffix, 0, st);
    lemma_at_is_split(text, 0, fr + v, b);
    lemma_at_is_split(text, 0, fr, v);
    lemma_break_front(p, 0, st);
    lemma_break_first(d.suffix, 0, st);
    lemma_lx_front(text, 0, p, 0, st);
    lemma_at_is_char(text, (fr.len() + v.len()) as int, b, 0);
    lemma_lx_value(text, fr.len() as int, d.root, 0, st);
    lemma_lx_break(text, (fr.len() + v.len()) as int, d.suffix, 0, st);
    let sy = sy_front(p) + sy_value(d.root, st) + sy_break(d.suffix);
    lemma_lx_trans(text, 0, fr.len() as int, (fr.len() + v.len()) as int, sy_front(p), sy_value(d.root, st));
    lemma_lx_trans(
        text,
        0,
        (fr.len() + v.len()) as int,
        text.len() as int,
        sy_front(p) + sy_value(d.root, st),
        sy_break(d.suffix),
    );
    lemma_lx_all(text, sy);
    lemma_tf_concat(sy_front(p) + sy_value(d.root, st), sy_break(d.suffix), gap0());
    lemma_tf_concat(sy_front(p), sy_value(d.root, st), gap0());
    lemma_tf_no_tok(sy_front(p), gap0());
    lemma_break_gap(d.suffix, pend(sy_front(p) + sy_value(d.root, st), gap0()));
    assert(tf(sy, gap0()) =~= tf(sy_value(d.root, st), pend(sy_front(p), gap0())));
    lemma_value_last(d.root, 0, st);
    assert(text[0] != '\u{FEFF}') by {
        if fr.len() > 0 {
            assert(text[0] == fr[0]);
        } else {
            assert(text[0] == v[0]);
        }
    }
    lemma_clean_break(p);
    lemma_clean_break(d.suffix);
    lemma_clean_value(d.root, st);
    lemma_clean_concat(sy_value(d.root, st), sy_break(d.suffix));
    lemma_initial_concat(sy_front(p), sy_value(d.root, st) + sy_break(d.suffix));
    assert(sy =~= sy_front(p) + (sy_value(d.root, st) + sy_break(d.suffix)));
    lemma_value_pend(d.root, st, pend(sy_front(p), gap0()));
    sy
}

/// The text of a written document with a brace-less root with entries
/// lexes to `sy`.
#[verifier::rlimit(50)]
#[verifier::spinoff_prover]
proof fn lemma_lex_bare(d: DocumentM) -> (sy: Seq<Sym>)
    requires
        doc_rt_ok(d),
        d.bare_root,
        d.root.value->entries.len() > 0,
    ensures
        lsyms(lex_from(write_spec(d), 0)) == Some(sy),
        write_spec(d).len() > 0,
        write_spec(d)[0] != '\u{FEFF}',
        tf(sy, gap0()) == tf(
            sy_root_from(d.root.value->entries, 0, d.style),
            pend(sy_front(d.root.value->entries[0].key.prefix), gap0()),
        ),
        line_initial(sy),
        pend(sy, gap0()).text == ret(d.suffix),
{
    let st = d.style;
    let text = write_spec(d);
    lemma_at_is_whole(text);
    let entries = d.root.value->entries;
    lemma_text_bare(d);
    let e0 = entries[0];
    let last0 = 1 == entries.len();
    assert(entry_lex_ok(e0, last0, st));
    let p = e0.key.prefix;
    let fr = front_rest(p, 0, st);
    let we = w_entry(e0, last0, 0, st);
    let wr = w_entries_from(entries, 1, -1, st);
    let tail = if d.suffix.len() == 0 { Seq::<char>::empty() } else { w_break(d.suffix, 0, st) };
    assert(text == fr + (we + wr) + seq!['\n'] + tail);
    assert(text =~= fr + we + wr + seq!['\n'] + tail);
    lemma_at_is_split(text, 0, fr + we + wr + seq!['\n'], tail);
    lemma_at_is_split(text, 0, fr + we + wr, seq!['\n']);
    lemma_at_is_split(text, 0, fr + we, wr);
    lemma_at_is_split(text, 0, fr, we);
    let j1 = fr.len() as int;
    let j2 = j1 + we.len();
    let j3 = j2 + wr.len();
    lemma_at_is_char(text, j3, seq!['\n'], 0);
    lemma_break_front(p, 0, st);
    lemma_lx_front(text, 0, p, 0, st);
    if wr.len() > 0 {
        assert(entry_lex_ok(entries[1], 2 == entries.len(), st));
        lemma_w_entries_unfold(entries, 1, -1, st);
        lemma_break_first(entries[1].key.prefix, 0, st);
        lemma_at_is_char(text, j2, wr, 0);
    }
    lemma_lx_entry(text, j1, e0, last0, 0, st);
    lemma_lx_entries(text, j2, entries, 1, -1, st);
    lemma_lx_nl(text, j3);
    let se = sy_entry(e0, last0, st);
    let sr = sy_entries_from(entries, 1, st);
    let stl = if d.suffix.len() == 0 { Seq::<Sym>::empty() } else { sy_break(d.suffix) };
    if d.suffix.len() == 0 {
        lemma_lx_empty(text, j3 + 1);
    } else {
        lemma_lx_break(text, j3 + 1, d.suffix, 0, st);
    }
    lemma_lx_trans(text, 0, j1, j2, sy_front(p), se);
    lemma_lx_trans(text, 0, j2, j3, sy_front(p) + se, sr);
    lemma_lx_trans(text, 0, j3, j3 + 1, sy_front(p) + se + sr, seq![Sym::N]);
    lemma_lx_trans(text, 0, j3 + 1, text.len() as int, sy_front(p) + se + sr + seq![Sym::N], stl);
    let sy = sy_front(p) + se + sr + seq![Sym::N] + stl;
    lemma_lx_all(text, sy);
    lemma_bare_tokens(p, entries, d.suffix, st);
    lemma_entry_first(e0, last0, 0, st);
    assert(text[0] != '\u{FEFF}') by {
        if fr.len() > 0 {
            assert(text[0] == fr[0]);
        } else {
            assert(text[0] == we[0]);
            assert(we[0] == w_key(e0.key, st)[0]);
            if bare_written(key_text(e0.key), st) {
                assert(w_key(e0.key, st) == key_text(e0.key));
            }
        }
    }
    lemma_clean_break(p);
    lemma_clean_entry(e0, last0, st);
    lemma_clean_entries(entries, 1, st);
    lemma_clean_toks(seq![Sym::N]);
    if d.suffix.len() > 0 {
        lemma_clean_break(d.suffix);
    } else {
        assert(clean(stl));
    }
    lemma_clean_concat(se, sr);
    lemma_clean_concat(se + sr, seq![Sym::N]);
    lemma_clean_concat(se + sr + seq![Sym::N], stl);
    lemma_initial_concat(sy_front(p), se + sr + seq![Sym::N] + stl);
    assert(sy =~= sy_front(p) + (se + sr + seq![Sym::N] + stl));
    // what follows the last token: a line break, then the suffix's comments
    let tl = seq![Sym::N] + stl;
    assert(sy =~= sy_front(p) + (se + sr) + tl);
    lemma_tf_concat(sy_front(p) + (se + sr), tl, gap0());
    lemma_tf_concat(sy_front(p), se + sr, gap0());
    lemma_root_pend(entries, st, pend(sy_front(p), gap0()));
    lemma_tf_concat(seq![Sym::N], stl, gap0());
    lemma_pend_single(Sym::N, gap0());
    if d.suffix.len() > 0 {
        lemma_break_text(d.suffix, pend(seq![Sym::N], gap0()));
        assert(Seq::<char>::empty() + ret(d.suffix) =~= ret(d.suffix));
    } else {
        assert(ret(d.suffix) == Seq::<char>::empty());
    }
    sy
}

/// The text of a written document with an empty brace-less root lexes to
/// `sy`, which holds no token.
proof fn lemma_lex_empty(d: DocumentM) -> (sy: Seq<Sym>)
    requires
        doc_rt_ok(d),
        d.bare_root,
        d.root.value->entries.len() == 0,
    ensures
        lsyms(lex_from(write_spec(d), 0)) == Some(sy),
        write_spec(d).len() > 0,
        write_spec(d)[0] != '\u{FEFF}',
        tf(sy, gap0()) == Seq::<TokGap>::empty(),
        line_initial(sy),
        pend(sy, gap0()).text == ret(d.suffix),
{
    let st = d.style;
    let text = write_spec(d);
    lemma_at_is_whole(text);
    lemma_text_empty(d);
    if d.suffix.len() == 0 {
        assert(text == seq!['\n']);
        lemma_lx_nl(text, 0);
        lemma_lx_all(text, seq![Sym::N]);
        assert(seq![Sym::N].drop_last() =~= Seq::<Sym>::empty());
        assert(tf(seq![Sym::N], gap0()) == tf(Seq::<Sym>::empty(), gap0()));
        lemma_clean_toks(seq![Sym::N]);
        lemma_pend_single(Sym::N, gap0());
        assert(ret(d.suffix) == Seq::<char>::empty());
        seq![Sym::N]
    } else {
        lemma_break_front(d.suffix, 0, st);
        lemma_lx_front(text, 0, d.suffix, 0, st);
        lemma_lx_all(text, sy_front(d.suffix));
        lemma_tf_no_tok(sy_front(d.suffix), gap0());
        lemma_ind0(st);
        let e = line_end(d.suffix, 1);
        lemma_wcl_shape(d.suffix, 0, st);
        let c1 = d.suffix.subrange(1, e);
        lemma_trim_comment(c1);
        assert(text[0] == trim(c1)[0]);
        lemma_clean_break(d.suffix);
        lemma_break_text(d.suffix, gap0());
        sy_front(d.suffix)
    }
}

/// The style the parser records while reading a document as the writer
/// writes it.
pub open spec fn ob_doc(d: DocumentM) -> Style {
    if d.bare_root {
        ob_entries(d.root.value->Object_entries, 0, d.style, empty_style())
    } else {
        ob_value(d.root, d.style, empty_style())
    }
}

/// A document written by the writer parses back to a document with the
/// same values, the same kind of root, and each trivia slot as [`ret`] of
/// the written one.
#[verifier::rlimit(60)]
#[verifier::spinoff_prover]
pub proof fn lemma_write_then_parse(d: DocumentM)
    requires
        doc_rt_ok(d),
    ensures
        parse_spec(write_spec(d)) matches Ok(d2) && d2.bare_root == d.bare_root && same_shape(
            d2.root.value,
            d.root.value,
        ) && reads_as(d2.root.value, d.root.value) && d2.suffix == ret(d.suffix) && (if d.bare_root {
            d2.root.prefix == Seq::<char>::empty()
        } else {
            d2.root.prefix == ret(d.root.prefix)
        }) && d2.style == ob_doc(d),
{
    let st = d.style;
    let text = write_spec(d);
    let sy = if !d.bare_root {
        lemma_lex_braced(d)
    } else if d.root.value->entries.len() > 0 {
        lemma_lex_bare(d)
    } else {
        lemma_lex_empty(d)
    };
    assert(strip_bom(text) == text);
    let items = lex_from(text, 0)->Ok_0;
    assert(lex_spec(text) == Ok::<Seq<ItemM>, ErrM>(items));
    assert(syms(items) == sy);
    let c = ctx_of(text, items);
    lemma_ctx_win(text, items);
    let es = empty_style();
    if !d.bare_root {
        lemma_break_text(d.suffix, gap0());
        assert(gap0().text + ret(d.suffix) =~= ret(d.suffix));
        lemma_break_text(d.root.prefix, gap0());
        let g = pend(sy_front(d.root.prefix), gap0());
        lemma_pv(c, 0, d.root, st, g, es);
        lemma_value_head(d.root, st, g);
        assert(c.toks[0] == tf(sy_value(d.root, st), g)[0].tok);
        assert(c.prefixes[0] == tf(sy_value(d.root, st), g)[0].prefix);
        if let Ok((m, q, s1)) = p_value(c, 0, es) {
            lemma_reads_as_shape(m.value, d.root.value);
        }
    } else {
        let entries = d.root.value->entries;
        assert(d.root.value->Object_trailing == Seq::<char>::empty());
        assert(ret(Seq::<char>::empty()) == Seq::<char>::empty());
        if entries.len() > 0 {
            let e0 = entries[0];
            let last0 = 1 == entries.len();
            assert(entry_lex_ok(e0, last0, st));
            lemma_break_text(e0.key.prefix, gap0());
            let g = pend(sy_front(e0.key.prefix), gap0());
            lemma_proot(c, 0, entries, 0, st, g, es);
            lemma_tf_concat(sy_entry(e0, last0, st), sy_entries_from(entries, 1, st), g);
            lemma_entry_tf(e0, last0, st, g);
            assert(c.toks[0] == tf(sy_root_from(entries, 0, st), g)[0].tok);
            assert(c.toks[0] == key_tok(e0.key, st));
            match p_bare_root(c, 0, es) {
                Ok((xs, q, s1)) => {
                    assert forall|j: int| 0 <= j < xs.len() implies (#[trigger] xs[j]).key.prefix == ret(
                        entries[j].key.prefix,
                    ) && xs[j].key.value == entries[j].key.value && xs[j].value.prefix == ret(entries[j].value.prefix)
                        && reads_as(xs[j].value.value, entries[j].value.value) by {
                        assert(xs[j].key.value == entries[0 + j].key.value);
                    }
                    let v2 = ValueM::Object { entries: xs, trailing: Seq::empty() };
                    assert(reads_as(v2, d.root.value));
                    lemma_reads_as_shape(v2, d.root.value);
                },
                Err(_) => {},
            }
        } else {
            assert(c.toks.len() == 0);
            assert(reads_as(ValueM::Object { entries: Seq::empty(), trailing: Seq::empty() }, d.root.value));
        }
    }
}

/// The tokens of a written brace-less root with entries are those of its
/// entries.
proof fn lemma_bare_tokens(p: Seq<char>, entries: Seq<EntryM>, sfx: Seq<char>, st: Style)
    requires
        entries.len() > 0,
        comment_lines(p),
        comment_lines(sfx),
    ensures
        ({
            let stl = if sfx.len() == 0 { Seq::<Sym>::empty() } else { sy_break(sfx) };
            let sy = sy_front(p) + sy_entry(entries[0], 1 == entries.len(), st) + sy_entries_from(entries, 1, st) + seq![
                Sym::N,
            ] + stl;
            tf(sy, gap0()) == tf(sy_root_from(entries, 0, st), pend(sy_front(p), gap0()))
        }),
{
    let stl = if sfx.len() == 0 { Seq::<Sym>::empty() } else { sy_break(sfx) };
    let se = sy_entry(entries[0], 1 == entries.len(), st);
    let sr = sy_entries_from(entries, 1, st);
    let sy = sy_front(p) + se + sr + seq![Sym::N] + stl;
    let tl = seq![Sym::N] + stl;
    assert(sy =~= sy_front(p) + sy_root_from(entries, 0, st) + tl);
    lemma_tf_concat(sy_front(p) + sy_root_from(entries, 0, st), tl, gap0());
    lemma_tf_concat(sy_front(p), sy_root_from(entries, 0, st), gap0());
    lemma_break_front(p, 1, st);
    lemma_tf_no_tok(sy_front(p), gap0());
    if sfx.len() > 0 {
        lemma_break_gap(sfx, gap0());
    }
    assert(no_tok(tl)) by {
        assert forall|k: int| 0 <= k < tl.len() implies !(#[trigger] tl[k] is T) by {
            if k > 0 {
                assert(tl[k] == stl[k - 1]);
            }
        }
    }
    lemma_tf_no_tok(tl, pend(sy_front(p) + sy_root_from(entries, 0, st), gap0()));
    assert(tf(sy, gap0()) =~= tf(sy_root_from(entries, 0, st), pend(sy_front(p), gap0())));
}

// ---------------------------------------------------------------------
// The law, for parsed documents.

/// The shapes the writer cannot write so that they read back: a string it
/// writes as verbatim fragments that holds a carriage return, or that a
/// comma follows; two such strings in a row in an array, the second with
/// no comment before it (the two merge into one); and a key it writes bare
/// that reads as a negative number.
pub open spec fn no_write_hazard(n: NodeM, st: Style) -> bool
    decreases n,
{
    match n.value {
        ValueM::Str(t) => is_vw(n, st) ==> !t.contains('\r'),
        ValueM::Array { items, .. } => forall|k: int|
            0 <= k < items.len() ==> {
                &&& no_write_hazard(#[trigger] items[k], st)
                &&& is_vw(items[k], st) ==> w_comma(st, k + 1 == items.len()).len() == 0
                &&& (k + 1 < items.len() && is_vw(items[k], st) && is_vw(items[k + 1], st)) ==> items[k + 1].prefix.len() > 0
            },
        ValueM::Object { entries, .. } => forall|k: int|
            0 <= k < entries.len() ==> {
                &&& no_write_hazard((#[trigger] entries[k]).value, st)
                &&& is_vw(entries[k].value, st) ==> w_comma(st, k + 1 == entries.len()).len() == 0
                &&& !(bare_written(key_text(entries[k].key), st) && key_text(entries[k].key).len() >= 2
                    && key_text(entries[k].key)[0] == '-' && is_digit(key_text(entries[k].key)[1]))
            },
        _ => true,
    }
}

/// A tree in the parser's form without write hazards meets what the
/// round trip needs.
pub proof fn lemma_hazard_free_ok(n: NodeM, st: Style)
    requires
        parsed_form(n),
        no_write_hazard(n, st),
    ensures
        lex_ok(n, st),
        read_ok(n, st),
    decreases n,
{
    match n.value {
        ValueM::Array { items, .. } => {
            assert forall|k: int| 0 <= k < items.len() implies lex_ok(#[trigger] items[k], st) && read_ok(items[k], st) by {
                lemma_hazard_free_ok(items[k], st);
            }
        },
        ValueM::Object { entries, .. } => {
            assert forall|k: int| 0 <= k < entries.len() implies entry_lex_ok(
                #[trigger] entries[k],
                k + 1 == entries.len(),
                st,
            ) && read_ok(entries[k].value, st) by {
                assert(parsed_form(entries[k].key) && parsed_form(entries[k].value));
                lemma_hazard_free_ok(entries[k].value, st);
            }
        },
        _ => {},
    }
}

/// Writing a parsed document and parsing the text again gives back the
/// same values, the same kind of root and the same comments in the same
/// order (each comment without the blanks that ended its line), unless
/// the tree holds one of the shapes [`no_write_hazard`] names (on each of
/// those the values change or the text does not parse).
#[verifier::rlimit(40)]
#[verifier::spinoff_prover]
pub proof fn law_write_then_parse_keeps_values_and_comments(input: Seq<char>, d: DocumentM)
    requires
        parse_spec(input) == Ok::<DocumentM, ErrM>(d),
        no_write_hazard(d.root, d.style),
        !bom_key_first(d),
    ensures
        parse_spec(write_spec(d)) matches Ok(d2) && d2.bare_root == d.bare_root && same_shape(
            d2.root.value,
            d.root.value,
        ) && doc_comments(d2) == doc_comments(d),
{
    law_parsed_document_form(input);
    law_parse_leaves_indent_and_bare_roots_are_objects(input);
    lemma_hazard_free_ok(d.root, d.style);
    lemma_write_then_parse(d);
    let d2 = parse_spec(write_spec(d))->Ok_0;
    if d.bare_root {
        assert(d.root.prefix =~= Seq::<char>::empty());
        assert(ret(d.root.prefix) =~= Seq::<char>::empty());
    }
    lemma_node_comments(d2.root, d.root, d.style);
    lemma_cl_ret(d.suffix);
}

// ---------------------------------------------------------------------
// In the writer's text every comment has a line to itself.

/// Each comment in `sy` follows a line break.
pub open spec fn clean(sy: Seq<Sym>) -> bool {
    forall|k: int| 0 <= k < sy.len() && (#[trigger] sy[k]) is C ==> k > 0 && sy[k - 1] is N
}

proof fn lemma_clean_concat(a: Seq<Sym>, b: Seq<Sym>)
    requires
        clean(a),
        clean(b),
    ensures
        clean(a + b),
{
    assert forall|k: int| 0 <= k < (a + b).len() && (#[trigger] (a + b)[k]) is C implies k > 0 && (a + b)[k - 1] is N by {
        if k >= a.len() {
            assert((a + b)[k] == b[k - a.len()]);
            assert((a + b)[k - 1] == b[k - a.len() - 1]);
        } else {
            assert((a + b)[k] == a[k]);
        }
    }
}

proof fn lemma_initial_concat(a: Seq<Sym>, b: Seq<Sym>)
    requires
        line_initial(a),
        clean(b),
    ensures
        line_initial(a + b),
{
    assert forall|k: int| 0 < k < (a + b).len() && (#[trigger] (a + b)[k]) is C implies (a + b)[k - 1] is N by {
        if k >= a.len() {
            assert((a + b)[k] == b[k - a.len()]);
            assert((a + b)[k - 1] == b[k - a.len() - 1]);
        } else {
            assert((a + b)[k] == a[k]);
            assert((a + b)[k - 1] == a[k - 1]);
        }
    }
}

proof fn lemma_clean_toks(sy: Seq<Sym>)
    requires
        forall|k: int| 0 <= k < sy.len() ==> !(#[trigger] sy[k] is C),
    ensures
        clean(sy),
{
}

proof fn lemma_clean_cl(q: Seq<char>)
    ensures
        clean(sy_cl(q)),
    decreases q.len(),
{
    if q.len() >= 2 && q[0] == '\n' && q[1] == '#' {
        let e = line_end(q, 1);
        if 1 < e <= q.len() {
            let rest = q.subrange(e, q.len() as int);
            lemma_clean_cl(rest);
            let h = seq![Sym::N, Sym::C(trim(q.subrange(1, e)))];
            assert(clean(h)) by {
                assert forall|k: int| 0 <= k < h.len() && (#[trigger] h[k]) is C implies k > 0 && h[k - 1] is N by {
                    if k == 0 {
                        assert(h[0] == Sym::N);
                    }
                }
            }
            lemma_clean_concat(h, sy_cl(rest));
        }
    }
}

proof fn lemma_clean_break(p: Seq<char>)
    requires
        comment_lines(p),
    ensures
        clean(sy_break(p)),
        clean(sy_soft(p)),
        line_initial(sy_front(p)),
{
    lemma_clean_cl(p);
    let n1 = seq![Sym::N];
    lemma_clean_toks(n1);
    if p.len() > 0 {
        lemma_clean_concat(n1, sy_cl(p));
        assert(sy_prefix(p) == n1 + sy_cl(p));
        lemma_clean_concat(sy_prefix(p), n1);
        lemma_wcl_shape(p, 0, empty_style());
        let e = line_end(p, 1);
        let rest = p.subrange(e, p.len() as int);
        let c0 = seq![Sym::C(trim(p.subrange(1, e)))];
        lemma_clean_cl(rest);
        lemma_clean_concat(sy_cl(rest), n1);
        assert(line_initial(c0));
        lemma_initial_concat(c0, sy_cl(rest) + n1);
        assert(sy_front(p) =~= c0 + (sy_cl(rest) + n1));
    } else {
        assert(sy_prefix(p) == Seq::<Sym>::empty());
        assert(sy_break(p) =~= n1);
        assert(clean(Seq::<Sym>::empty()));
        assert(sy_front(p) == Seq::<Sym>::empty());
    }
}

proof fn lemma_clean_verb(t: Seq<char>, i: int, start: int, first: bool)
    ensures
        forall|k: int| 0 <= k < sy_verb_from(t, i, start, first).len() ==> !(#[trigger] sy_verb_from(t, i, start, first)[k] is C),
    decreases t.len() - i,
{
    let lead = if first { Seq::<Sym>::empty() } else { seq![Sym::N] };
    if 0 <= i < t.len() && t[i] != '\n' {
        lemma_clean_verb(t, i + 1, start, first);
    } else if 0 <= i < t.len() {
        lemma_clean_verb(t, i + 1, i + 1, false);
        let x = lead + seq![Sym::T(TokM::Verbatim(t.subrange(start, i)))];
        let r = sy_verb_from(t, i + 1, i + 1, false);
        assert forall|k: int| 0 <= k < (x + r).len() implies !(#[trigger] (x + r)[k] is C) by {
            if k >= x.len() {
                assert((x + r)[k] == r[k - x.len()]);
            }
        }
    }
}

/// The writer's symbols for a value have each comment after a line break.
proof fn lemma_clean_value(n: NodeM, st: Style)
    requires
        lex_ok(n, st),
    ensures
        clean(sy_value(n, st)),
    decreases n, 1int,
{
    match n.value {
        ValueM::Str(t) => {
            if st.eff_verbatim_strings() && t.contains('\n') {
                lemma_clean_verb(t, 0, 0, true);
            }
        },
        ValueM::Array { items, trailing } => {
            let a = seq![Sym::T(TokM::LBracket)];
            let z = seq![Sym::T(TokM::RBracket)];
            lemma_clean_toks(a);
            lemma_clean_toks(z);
            if !(items.len() == 0 && trim(trailing).len() == 0) {
                assert(comment_lines(trailing));
                lemma_clean_items(items, 0, st);
                lemma_clean_break(trailing);
                lemma_clean_concat(a, sy_items_from(items, 0, st));
                lemma_clean_concat(a + sy_items_from(items, 0, st), sy_break(trailing));
                lemma_clean_concat(a + sy_items_from(items, 0, st) + sy_break(trailing), z);
            } else {
                lemma_clean_concat(a, z);
            }
        },
        ValueM::Object { entries, trailing } => {
            let a = seq![Sym::T(TokM::LBrace)];
            let z = seq![Sym::T(TokM::RBrace)];
            lemma_clean_toks(a);
            lemma_clean_toks(z);
            if !(entries.len() == 0 && trim(trailing).len() == 0) {
                assert(comment_lines(trailing));
                lemma_clean_entries(entries, 0, st);
                lemma_clean_break(trailing);
                lemma_clean_concat(a, sy_entries_from(entries, 0, st));
                lemma_clean_concat(a + sy_entries_from(entries, 0, st), sy_break(trailing));
                lemma_clean_concat(a + sy_entries_from(entries, 0, st) + sy_break(trailing), z);
            } else {
                lemma_clean_concat(a, z);
            }
        },
        _ => {},
    }
}

proof fn lemma_clean_items(items: Seq<NodeM>, k: int, st: Style)
    requires
        forall|m: int| 0 <= m < items.len() ==> lex_ok(#[trigger] items[m], st),
    ensures
        clean(sy_items_from(items, k, st)),
    decreases items, items.len() - k,
{
    if 0 <= k < items.len() {
        assert(lex_ok(items[k], st));
        assert(comment_lines(items[k].prefix));
        lemma_clean_break(items[k].prefix);
        lemma_clean_value(items[k], st);
        lemma_clean_toks(sy_comma(st, k + 1 == items.len()));
        lemma_clean_items(items, k + 1, st);
        let sb = sy_break(items[k].prefix);
        let sv = sy_value(items[k], st);
        let sc = sy_comma(st, k + 1 == items.len());
        lemma_clean_concat(sb, sv);
        lemma_clean_concat(sb + sv, sc);
        lemma_clean_concat(sb + sv + sc, sy_items_from(items, k + 1, st));
    }
}

proof fn lemma_clean_entries(entries: Seq<EntryM>, k: int, st: Style)
    requires
        forall|m: int| 0 <= m < entries.len() ==> entry_lex_ok(#[trigger] entries[m], m + 1 == entries.len(), st),
    ensures
        clean(sy_entries_from(entries, k, st)),
    decreases entries, entries.len() - k,
{
    if 0 <= k < entries.len() {
        let e = entries[k];
        assert(entry_lex_ok(e, k + 1 == entries.len(), st));
        lemma_clean_break(e.key.prefix);
        lemma_clean_entry(e, k + 1 == entries.len(), st);
        lemma_clean_entries(entries, k + 1, st);
        lemma_clean_concat(sy_break(e.key.prefix), sy_entry(e, k + 1 == entries.len(), st));
        lemma_clean_concat(
            sy_break(e.key.prefix) + sy_entry(e, k + 1 == entries.len(), st),
            sy_entries_from(entries, k + 1, st),
        );
    }
}

proof fn lemma_clean_entry(e: EntryM, is_last: bool, st: Style)
    requires
        entry_lex_ok(e, is_last, st),
    ensures
        clean(sy_entry(e, is_last, st)),
    decreases e, 0int,
{
    let kt = seq![Sym::T(key_tok(e.key, st)), Sym::T(sep_tok(st))];
    lemma_clean_toks(kt);
    assert(comment_lines(e.value.prefix));
    lemma_clean_break(e.value.prefix);
    lemma_clean_value(e.value, st);
    lemma_clean_toks(sy_comma(st, is_last));
    lemma_clean_concat(kt, sy_soft(e.value.prefix));
    lemma_clean_concat(kt + sy_soft(e.value.prefix), sy_value(e.value, st));
    lemma_clean_concat(kt + sy_soft(e.value.prefix) + sy_value(e.value, st), sy_comma(st, is_last));
}

/// A value's symbols end with a token.
proof fn lemma_value_pend(n: NodeM, st: Style, g: Gap)
    ensures
        pend(sy_value(n, st), g) == gap0(),
{
    let sy = sy_value(n, st);
    match n.value {
        ValueM::Str(t) => {
            if st.eff_verbatim_strings() && t.contains('\n') {
                lemma_tf_verb(t, 0, 0, true, g);
            } else {
                lemma_tf_single(TokM::Str(t, kind_of(st.eff_value_quote())), g);
            }
        },
        ValueM::Null => lemma_tf_single(TokM::Bare("null"@), g),
        ValueM::Bool(b) => lemma_tf_single(TokM::Bare(if b { "true"@ } else { "false"@ }), g),
        ValueM::Number(raw) => lemma_tf_single(TokM::Number(raw), g),
        _ => {
            assert(sy.last() is T);
        },
    }
}

// ---------------------------------------------------------------------
// What the trivia read back as.

proof fn lemma_pend_single(x: Sym, g: Gap)
    ensures
        pend(seq![x], g) == gap_step(g, x),
{
    let e = seq![x].drop_last();
    assert(e =~= Seq::<Sym>::empty());
    assert(pend(e, g) == g);
    assert(seq![x].last() == x);
}

/// A run of comment lines as it reads back after writing: each comment
/// trimmed, after a line break.
pub open spec fn ret(q: Seq<char>) -> Seq<char>
    decreases q.len(),
{
    if q.len() >= 2 && q[0] == '\n' && q[1] == '#' {
        let e = line_end(q, 1);
        if 1 < e <= q.len() {
            seq!['\n'] + trim(q.subrange(1, e)) + ret(q.subrange(e, q.len() as int))
        } else {
            Seq::empty()
        }
    } else {
        Seq::empty()
    }
}

proof fn lemma_cl_text(q: Seq<char>, g: Gap)
    ensures
        pend(sy_cl(q), g).text == g.text + ret(q),
    decreases q.len(),
{
    if q.len() >= 2 && q[0] == '\n' && q[1] == '#' {
        let e = line_end(q, 1);
        if 1 < e <= q.len() {
            let rest = q.subrange(e, q.len() as int);
            let h = seq![Sym::N, Sym::C(trim(q.subrange(1, e)))];
            lemma_tf_concat(h, sy_cl(rest), g);
            assert(h.drop_last() =~= seq![Sym::N]);
            lemma_pend_single(Sym::N, g);
            assert(pend(h, g).text == g.text + seq!['\n'] + trim(q.subrange(1, e)));
            lemma_cl_text(rest, pend(h, g));
            assert(g.text + seq!['\n'] + trim(q.subrange(1, e)) + ret(rest) =~= g.text + ret(q));
        } else {
            assert(g.text + ret(q) =~= g.text);
        }
    } else {
        assert(g.text + ret(q) =~= g.text);
    }
}

/// A break adds its comments, as they read back, to the gap.
proof fn lemma_break_text(p: Seq<char>, g: Gap)
    requires
        comment_lines(p),
    ensures
        pend(sy_break(p), g).text == g.text + ret(p),
        pend(sy_soft(p), g).text == g.text + ret(p),
        pend(sy_front(p), gap0()).text == ret(p),
{
    let n1 = seq![Sym::N];
    lemma_pend_single(Sym::N, g);
    if p.len() == 0 {
        assert(ret(p) == Seq::<char>::empty());
        assert(g.text + ret(p) =~= g.text);
        assert(sy_break(p) =~= n1);
        assert(sy_soft(p) == Seq::<Sym>::empty());
        assert(sy_front(p) == Seq::<Sym>::empty());
    } else {
        lemma_tf_concat(n1, sy_cl(p), g);
        lemma_cl_text(p, pend(n1, g));
        let g2 = pend(n1 + sy_cl(p), g);
        lemma_tf_concat(n1 + sy_cl(p), n1, g);
        lemma_pend_single(Sym::N, g2);
        assert(sy_soft(p) == sy_break(p));
        // the front: the first comment, the rest, a line break
        lemma_wcl_shape(p, 0, empty_style());
        let e = line_end(p, 1);
        let rest = p.subrange(e, p.len() as int);
        let c0 = seq![Sym::C(trim(p.subrange(1, e)))];
        lemma_pend_single(Sym::C(trim(p.subrange(1, e))), gap0());
        assert(sy_front(p) =~= c0 + sy_cl(rest) + n1);
        lemma_tf_concat(c0 + sy_cl(rest), n1, gap0());
        lemma_tf_concat(c0, sy_cl(rest), gap0());
        lemma_cl_text(rest, pend(c0, gap0()));
        let g3 = pend(c0 + sy_cl(rest), gap0());
        lemma_pend_single(Sym::N, g3);
        assert(ret(p) == seq!['\n'] + trim(p.subrange(1, e)) + ret(rest));
        assert(Seq::<char>::empty() + seq!['\n'] + trim(p.subrange(1, e)) + ret(rest) =~= ret(p));
    }
}

/// An empty-looking run of comment lines is empty.
pub proof fn lemma_cl_trim_empty(q: Seq<char>)
    requires
        comment_lines(q),
        trim(q).len() == 0,
    ensures
        q.len() == 0,
{
    if q.len() > 0 {
        assert(q[0] == '\n' && q[1] == '#');
        assert(ws_skip(q, 1) == 1);
        assert(ws_skip(q, 0) == 1);
        lemma_ws_back(q, 1, q.len() as int);
        assert(ws_back(q, 1, q.len() as int) >= 2) by {
            lemma_ws_back_min(q, 1, q.len() as int);
        }
    }
}

/// `ws_back` never steps back over a non-blank character at `lo`.
proof fn lemma_ws_back_min(c: Seq<char>, lo: int, j: int)
    requires
        0 <= lo < j <= c.len(),
        !is_ws_spec(c[lo]),
    ensures
        ws_back(c, lo, j) >= lo + 1,
    decreases j - lo,
{
    if j > lo + 1 && is_ws_spec(c[j - 1]) {
        lemma_ws_back_min(c, lo, j - 1);
    }
}

/// Values and trivia read back: the same values, and each trivia slot as
/// [`ret`] of the written one.
pub open spec fn reads_as(a: ValueM, b: ValueM) -> bool
    decreases a,
{
    match a {
        ValueM::Array { items, trailing } => match b {
            ValueM::Array { items: y, trailing: ty } => items.len() == y.len() && trailing == ret(ty) && forall|k: int|
                0 <= k < items.len() ==> (#[trigger] items[k]).prefix == ret(y[k].prefix) && reads_as(
                    items[k].value,
                    y[k].value,
                ),
            _ => false,
        },
        ValueM::Object { entries, trailing } => match b {
            ValueM::Object { entries: y, trailing: ty } => entries.len() == y.len() && trailing == ret(ty) && forall|
                k: int,
            |
                0 <= k < entries.len() ==> (#[trigger] entries[k]).key.prefix == ret(y[k].key.prefix)
                    && entries[k].key.value == y[k].key.value && entries[k].value.prefix == ret(y[k].value.prefix)
                    && reads_as(entries[k].value.value, y[k].value.value),
            _ => false,
        },
        _ => a == b,
    }
}

pub proof fn lemma_reads_as_shape(a: ValueM, b: ValueM)
    requires
        reads_as(a, b),
    ensures
        same_shape(a, b),
    decreases a,
{
    match a {
        ValueM::Array { items, .. } => {
            let y = b->items;
            assert forall|k: int| 0 <= k < items.len() implies same_shape(#[trigger] items[k].value, y[k].value) by {
                lemma_reads_as_shape(items[k].value, y[k].value);
            }
        },
        ValueM::Object { entries, .. } => {
            let y = b->entries;
            assert forall|k: int| 0 <= k < entries.len() implies (#[trigger] entries[k]).key.value == y[k].key.value
                && same_shape(entries[k].value.value, y[k].value.value) by {
                lemma_reads_as_shape(entries[k].value.value, y[k].value.value);
            }
        },
        _ => {},
    }
}

/// A run of array elements ends with a token.
proof fn lemma_items_pend(items: Seq<NodeM>, k: int, st: Style, g: Gap)
    requires
        0 <= k < items.len(),
    ensures
        pend(sy_items_from(items, k, st), g) == gap0(),
    decreases items.len() - k,
{
    let sb = sy_break(items[k].prefix);
    let sv = sy_value(items[k], st);
    let sc = sy_comma(st, k + 1 == items.len());
    let sr = sy_items_from(items, k + 1, st);
    assert(sy_items_from(items, k, st) == sb + sv + sc + sr);
    lemma_tf_concat(sb + sv + sc, sr, g);
    lemma_tf_concat(sb + sv, sc, g);
    lemma_tf_concat(sb, sv, g);
    lemma_value_pend(items[k], st, pend(sb, g));
    if sc.len() > 0 {
        assert(sc == seq![Sym::T(TokM::Comma)]);
        lemma_tf_single(TokM::Comma, gap0());
    } else {
        assert(sc == Seq::<Sym>::empty());
    }
    if k + 1 < items.len() {
        lemma_items_pend(items, k + 1, st, gap0());
    } else {
        assert(sr == Seq::<Sym>::empty());
    }
}

/// A run of object entries ends with a token.
proof fn lemma_entries_pend(entries: Seq<EntryM>, k: int, st: Style, g: Gap)
    requires
        0 <= k < entries.len(),
    ensures
        pend(sy_entries_from(entries, k, st), g) == gap0(),
        pend(sy_entry(entries[k], k + 1 == entries.len(), st), g) == gap0(),
    decreases entries.len() - k,
{
    let e = entries[k];
    let last = k + 1 == entries.len();
    let kt = seq![Sym::T(key_tok(e.key, st)), Sym::T(sep_tok(st))];
    let sf = sy_soft(e.value.prefix);
    let sv = sy_value(e.value, st);
    let sc = sy_comma(st, last);
    assert(sy_entry(e, last, st) == kt + sf + sv + sc);
    lemma_tf_concat(kt + sf + sv, sc, g);
    lemma_tf_concat(kt + sf, sv, g);
    lemma_value_pend(e.value, st, pend(kt + sf, g));
    if sc.len() > 0 {
        assert(sc == seq![Sym::T(TokM::Comma)]);
        lemma_tf_single(TokM::Comma, gap0());
    } else {
        assert(sc == Seq::<Sym>::empty());
    }
    let sb = sy_break(e.key.prefix);
    let sr = sy_entries_from(entries, k + 1, st);
    assert(sy_entries_from(entries, k, st) == sb + sy_entry(e, last, st) + sr);
    lemma_tf_concat(sb + sy_entry(e, last, st), sr, g);
    lemma_tf_concat(sb, sy_entry(e, last, st), g);
    lemma_tf_concat(kt + sf + sv, sc, pend(sb, g));
    lemma_tf_concat(kt + sf, sv, pend(sb, g));
    lemma_value_pend(e.value, st, pend(kt + sf, pend(sb, g)));
    if k + 1 < entries.len() {
        lemma_entries_pend(entries, k + 1, st, gap0());
    } else {
        assert(sr == Seq::<Sym>::empty());
    }
}

/// The continuation fragments of a verbatim string bring no trivia.
proof fn lemma_verb_extra(c: PCtx, pos: int, l: Seq<Seq<char>>, nl: bool, bl: bool, px: Seq<char>, m: int)
    requires
        win(c, pos, vt(l, nl, bl, px)),
        1 <= m <= l.len(),
    ensures
        verb_extra(c, pos + 1, pos + m) == Seq::<char>::empty(),
    decreases m,
{
    if m > 1 {
        lemma_verb_extra(c, pos, l, nl, bl, px, m - 1);
        assert(vt(l, nl, bl, px)[m - 1].prefix == Seq::<char>::empty());
        assert(pref(c, pos + m - 1) == c.prefixes[pos + m - 1]);
        assert(Seq::<char>::empty() + Seq::<char>::empty() =~= Seq::<char>::empty());
    }
}

/// The entries of a brace-less root end with a token.
proof fn lemma_root_pend(entries: Seq<EntryM>, st: Style, g: Gap)
    requires
        entries.len() > 0,
    ensures
        pend(sy_entry(entries[0], 1 == entries.len(), st) + sy_entries_from(entries, 1, st), g) == gap0(),
{
    let se = sy_entry(entries[0], 1 == entries.len(), st);
    let sr = sy_entries_from(entries, 1, st);
    lemma_tf_concat(se, sr, g);
    lemma_entries_pend(entries, 0, st, g);
    if entries.len() > 1 {
        lemma_entries_pend(entries, 1, st, gap0());
    } else {
        assert(sr == Seq::<Sym>::empty());
    }
}

// ---------------------------------------------------------------------
// The comments of a document.

/// The comments of a run of comment lines, each trimmed.
pub open spec fn cl_list(q: Seq<char>) -> Seq<Seq<char>>
    decreases q.len(),
{
    if q.len() >= 2 && q[0] == '\n' && q[1] == '#' {
        let e = line_end(q, 1);
        if 1 < e <= q.len() {
            seq![trim(q.subrange(1, e))] + cl_list(q.subrange(e, q.len() as int))
        } else {
            Seq::empty()
        }
    } else {
        Seq::empty()
    }
}

/// The comments of a node, in document order.
pub open spec fn node_comments(n: NodeM) -> Seq<Seq<char>>
    decreases n, 0int,
{
    cl_list(n.prefix) + match n.value {
        ValueM::Array { items, trailing } => items_comments(items, 0) + cl_list(trailing),
        ValueM::Object { entries, trailing } => entries_comments(entries, 0) + cl_list(trailing),
        _ => Seq::empty(),
    }
}

/// The comments of the elements of an array from the `k`-th on.
pub open spec fn items_comments(items: Seq<NodeM>, k: int) -> Seq<Seq<char>>
    decreases items, items.len() - k,
{
    if 0 <= k < items.len() {
        node_comments(items[k]) + items_comments(items, k + 1)
    } else {
        Seq::empty()
    }
}

/// The comments of an entry: those before its key, then its value's.
pub open spec fn entry_comments(e: EntryM) -> Seq<Seq<char>>
    decreases e, 0int,
{
    node_comments(e.key) + node_comments(e.value)
}

/// The comments of the entries of an object from the `k`-th on.
pub open spec fn entries_comments(entries: Seq<EntryM>, k: int) -> Seq<Seq<char>>
    decreases entries, entries.len() - k,
{
    if 0 <= k < entries.len() {
        entry_comments(entries[k]) + entries_comments(entries, k + 1)
    } else {
        Seq::empty()
    }
}

/// The comments of a document, in document order.
pub open spec fn doc_comments(d: DocumentM) -> Seq<Seq<char>> {
    node_comments(d.root) + cl_list(d.suffix)
}

/// `ws_back` stops at `lo` or after a non-blank character.
proof fn lemma_ws_back_stop(s: Seq<char>, lo: int, j: int)
    requires
        0 <= lo <= j <= s.len(),
    ensures
        ws_back(s, lo, j) == lo || !is_ws_spec(s[ws_back(s, lo, j) - 1]),
    decreases j - lo,
{
    if lo < j && is_ws_spec(s[j - 1]) {
        lemma_ws_back_stop(s, lo, j - 1);
    }
}

/// Trimming a comment twice changes nothing more.
pub proof fn lemma_trim_idem(c: Seq<char>)
    requires
        is_comment_text(c),
    ensures
        trim(trim(c)) == trim(c),
{
    lemma_trim_comment(c);
    let t = trim(c);
    let b = ws_back(c, 0, c.len() as int);
    lemma_ws_back(c, 0, c.len() as int);
    lemma_ws_back_stop(c, 0, c.len() as int);
    lemma_ws_back_stops(c, c.len() as int);
    assert(ws_skip(c, 0) == 0);
    assert(t == c.subrange(0, b));
    assert(!is_ws_spec(t[t.len() - 1]));
    assert(!is_ws_spec(t[0]));
    assert(ws_skip(t, 0) == 0);
    assert(ws_back(t, 0, t.len() as int) == t.len());
    assert(t.subrange(0, t.len() as int) =~= t);
}

/// The first line of a run of comment lines read back is its first
/// comment, trimmed.
pub proof fn lemma_ret_head(q: Seq<char>)
    requires
        comment_lines(q),
        q.len() > 0,
    ensures
        ({
            let e = line_end(q, 1);
            let c1 = q.subrange(1, e);
            let t = trim(c1);
            let rest = q.subrange(e, q.len() as int);
            let r = ret(q);
            &&& 1 < e <= q.len()
            &&& is_comment_text(c1)
            &&& is_comment_text(t)
            &&& trim(t) == t
            &&& comment_lines(rest)
            &&& r.len() >= 2 && r[0] == '\n' && r[1] == '#'
            &&& line_end(r, 1) == 1 + t.len()
            &&& r.subrange(1, 1 + t.len() as int) == t
            &&& r.subrange(1 + t.len() as int, r.len() as int) == ret(rest)
            &&& r == seq!['\n'] + t + ret(rest)
        }),
{
    let e = line_end(q, 1);
    lemma_line_end(q, 1);
    let c1 = q.subrange(1, e);
    let rest = q.subrange(e, q.len() as int);
    assert(is_comment_text(c1)) by {
        assert forall|k: int| 0 <= k < c1.len() implies !is_line_break(#[trigger] c1[k]) by {
            assert(c1[k] == q[1 + k]);
        }
    }
    lemma_trim_comment(c1);
    lemma_trim_idem(c1);
    let t = trim(c1);
    let r = ret(q);
    let rr = ret(rest);
    assert(r == seq!['\n'] + t + rr);
    assert(rr.len() > 0 ==> rr[0] == '\n') by {
        if rr.len() > 0 {
            let e2 = line_end(rest, 1);
            assert(rr == seq!['\n'] + trim(rest.subrange(1, e2)) + ret(rest.subrange(e2, rest.len() as int)));
        }
    }
    assert forall|k: int| 1 <= k < 1 + t.len() implies !is_line_break(#[trigger] r[k]) by {
        assert(r[k] == t[k - 1]);
    }
    let tl: int = t.len() as int;
    if rr.len() > 0 {
        assert(r[1 + tl] == rr[0]);
    }
    lemma_line_end_at(r, 1, 1 + tl);
    assert(r.subrange(1, 1 + tl) =~= t);
    assert(r.subrange(1 + tl, r.len() as int) =~= rr);
    assert(r[1] == t[0]);
}

/// Reading back keeps the comments of a run of comment lines.
proof fn lemma_cl_ret(q: Seq<char>)
    requires
        comment_lines(q),
    ensures
        cl_list(ret(q)) == cl_list(q),
    decreases q.len(),
{
    if q.len() > 0 {
        lemma_ret_head(q);
        lemma_cl_ret(q.subrange(line_end(q, 1), q.len() as int));
    }
}

/// A run of comment lines read back is one, and the writer writes it as
/// it wrote the run.
pub proof fn lemma_ret_lines(q: Seq<char>, d: int, a: Style, b: Style)
    requires
        comment_lines(q),
        ind(a, d) == ind(b, d),
    ensures
        comment_lines(ret(q)),
        ret(q).len() == 0 <==> q.len() == 0,
        wcl(ret(q), d, a) == wcl(q, d, b),
    decreases q.len(),
{
    if q.len() > 0 {
        lemma_ret_head(q);
        let e = line_end(q, 1);
        let rest = q.subrange(e, q.len() as int);
        let t = trim(q.subrange(1, e));
        let r = ret(q);
        lemma_ret_lines(rest, d, a, b);
        assert(r.subrange(1, line_end(r, 1)) == t);
        assert(w_line(t, d, a) == w_line(q.subrange(1, e), d, b));
    }
}

/// A node that reads back as another holds the same comments.
proof fn lemma_node_comments(a: NodeM, b: NodeM, st: Style)
    requires
        a.prefix == ret(b.prefix),
        reads_as(a.value, b.value),
        lex_ok(b, st),
    ensures
        node_comments(a) == node_comments(b),
    decreases b, 0int,
{
    lemma_cl_ret(b.prefix);
    match b.value {
        ValueM::Array { items: y, trailing: ty } => {
            lemma_cl_ret(ty);
            lemma_items_comments(a.value->Array_items, y, 0, st);
        },
        ValueM::Object { entries: y, trailing: ty } => {
            lemma_cl_ret(ty);
            lemma_entries_comments(a.value->Object_entries, y, 0, st);
        },
        _ => {},
    }
}

proof fn lemma_items_comments(x: Seq<NodeM>, y: Seq<NodeM>, k: int, st: Style)
    requires
        x.len() == y.len(),
        0 <= k <= y.len(),
        forall|m: int|
            0 <= m < x.len() ==> (#[trigger] x[m]).prefix == ret(y[m].prefix) && reads_as(x[m].value, y[m].value),
        forall|m: int| 0 <= m < y.len() ==> lex_ok(#[trigger] y[m], st),
    ensures
        items_comments(x, k) == items_comments(y, k),
    decreases y, y.len() - k,
{
    if k < y.len() {
        assert(x[k].prefix == ret(y[k].prefix));
        assert(lex_ok(y[k], st));
        lemma_node_comments(x[k], y[k], st);
        lemma_items_comments(x, y, k + 1, st);
    }
}

proof fn lemma_entry_comments(e: EntryM, f: EntryM, is_last: bool, st: Style)
    requires
        e.key.prefix == ret(f.key.prefix),
        e.key.value == f.key.value,
        e.value.prefix == ret(f.value.prefix),
        reads_as(e.value.value, f.value.value),
        entry_lex_ok(f, is_last, st),
    ensures
        entry_comments(e) == entry_comments(f),
    decreases f, 0int,
{
    lemma_cl_ret(f.key.prefix);
    assert(node_comments(e.key) == cl_list(e.key.prefix) + Seq::<Seq<char>>::empty());
    assert(node_comments(f.key) == cl_list(f.key.prefix) + Seq::<Seq<char>>::empty());
    lemma_node_comments(e.value, f.value, st);
}

proof fn lemma_entries_comments(x: Seq<EntryM>, y: Seq<EntryM>, k: int, st: Style)
    requires
        x.len() == y.len(),
        0 <= k <= y.len(),
        forall|m: int|
            0 <= m < x.len() ==> (#[trigger] x[m]).key.prefix == ret(y[m].key.prefix) && x[m].key.value
                == y[m].key.value && x[m].value.prefix == ret(y[m].value.prefix) && reads_as(
                x[m].value.value,
                y[m].value.value,
            ),
        forall|m: int| 0 <= m < y.len() ==> entry_lex_ok(#[trigger] y[m], m + 1 == y.len(), st),
    ensures
        entries_comments(x, k) == entries_comments(y, k),
    decreases y, y.len() - k,
{
    if k < y.len() {
        assert(x[k].key.prefix == ret(y[k].key.prefix));
        assert(entry_lex_ok(y[k], k + 1 == y.len(), st));
        lemma_entry_comments(x[k], y[k], k + 1 == y.len(), st);
        lemma_entries_comments(x, y, k + 1, st);
    }
}

} // verus!
