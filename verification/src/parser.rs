//! Recursive-descent parser building a [`Document`] tree.
//!
//! Runs after the lexer and the comment-reattachment pass, so every
//! remaining comment is already parked in the trivia slot of the real
//! token that follows it (see [`crate::trivia`]). This parser only has to
//! build the value tree and, along the way, latch the first-seen
//! [`Style`] choices.

use vstd::prelude::*;
use crate::lexer::{self, items_view, lex_spec, ItemM, Item, QuoteKind, RealTok, Span, TokM};
use crate::model::{err_matches, trivia_valid, ErrM, EntryM, NodeM, ValueM, DocumentM};
use crate::style::{empty_style, latch, quote_of_kind, KeyStyle, Quote, Separator, Style};
use crate::trivia::{self, resolve_spec, strings_view};
use crate::{CsonStr, Document, Entry, Node, Number, ParseError, Value};
use crate::text::{push_char, str_eq};

verus! {

broadcast use crate::group_view;

/// Everything the parser reads: the (BOM-stripped) input, the real
/// tokens with their start positions, and the resolved trivia.
pub struct PCtx {
    pub input: Seq<char>,
    pub toks: Seq<TokM>,
    pub starts: Seq<int>,
    pub prefixes: Seq<Seq<char>>,
    pub blank: Seq<bool>,
    pub nl: Seq<bool>,
}

/// A located parse error.
pub open spec fn perr<T>(pos: int, msg: Seq<char>) -> Result<T, ErrM> {
    Err(ErrM { pos, msg })
}

/// Token `pos`, if any.
pub open spec fn tok(c: PCtx, pos: int) -> Option<TokM> {
    if 0 <= pos < c.toks.len() {
        Some(c.toks[pos])
    } else {
        None
    }
}

/// The trivia before token `pos` (empty if out of range).
pub open spec fn pref(c: PCtx, pos: int) -> Seq<char> {
    if 0 <= pos < c.prefixes.len() {
        c.prefixes[pos]
    } else {
        Seq::empty()
    }
}

/// Where an error "here" points: the start of token `pos`, or the end
/// of the input.
pub open spec fn here(c: PCtx, pos: int) -> int {
    if 0 <= pos < c.starts.len() {
        c.starts[pos]
    } else {
        c.input.len() as int
    }
}

pub open spec fn eof(c: PCtx) -> int {
    c.input.len() as int
}

pub open spec fn is_tok(c: PCtx, pos: int, t: TokM) -> bool {
    tok(c, pos) == Some(t)
}

pub open spec fn note_separator(st: Style, s: Separator) -> Style {
    Style { separator: latch(st.separator, s), ..st }
}

pub open spec fn note_value_quote(st: Style, q: Quote) -> Style {
    Style { value_quote: latch(st.value_quote, q), ..st }
}

pub open spec fn note_key_style(st: Style, k: KeyStyle) -> Style {
    Style { key_style: latch(st.key_style, k), ..st }
}

pub open spec fn note_commas(st: Style, b: bool) -> Style {
    Style { commas: latch(st.commas, b), ..st }
}

pub open spec fn note_trailing_comma(st: Style, b: bool) -> Style {
    Style { trailing_comma: latch(st.trailing_comma, b), ..st }
}

pub open spec fn note_verbatim_strings(st: Style, b: bool) -> Style {
    Style { verbatim_strings: latch(st.verbatim_strings, b), ..st }
}

pub open spec fn node(prefix: Seq<char>, value: ValueM) -> NodeM {
    NodeM { prefix, value }
}

/// End of the run of verbatim fragments continuing at `j`: each further
/// fragment token not preceded by a blank line merges into the string.
pub open spec fn verb_end(c: PCtx, j: int) -> int
    decreases c.toks.len() - j,
{
    if 0 <= j < c.toks.len() && c.toks[j] is Verbatim && !(0 <= j < c.blank.len() && c.blank[j]) {
        verb_end(c, j + 1)
    } else {
        j
    }
}

/// The text of verbatim fragment token `j`.
pub open spec fn frag(c: PCtx, j: int) -> Seq<char> {
    match tok(c, j) {
        Some(TokM::Verbatim(t)) => t,
        _ => Seq::empty(),
    }
}

/// Fragments `from..to` joined with `'\n'` (`from < to`).
pub open spec fn verb_join(c: PCtx, from: int, to: int) -> Seq<char>
    decreases to - from,
{
    if to <= from + 1 {
        frag(c, from)
    } else {
        verb_join(c, from, to - 1) + seq!['\n'] + frag(c, to - 1)
    }
}

/// The trivia of fragments `from..to`, concatenated.
pub open spec fn verb_extra(c: PCtx, from: int, to: int) -> Seq<char>
    decreases to - from,
{
    if to <= from {
        Seq::empty()
    } else {
        verb_extra(c, from, to - 1) + pref(c, to - 1)
    }
}

/// A verbatim string value starting at fragment token `pos`.
pub open spec fn p_verbatim(c: PCtx, pos: int, prefix: Seq<char>, st: Style) -> (NodeM, int, Style) {
    let e = verb_end(c, pos + 1);
    let st2 = if e - pos > 1 { note_verbatim_strings(st, true) } else { st };
    (node(prefix + verb_extra(c, pos + 1, e), ValueM::Str(verb_join(c, pos, e))), e, st2)
}

/// An object key at `pos`.
pub open spec fn p_key(c: PCtx, pos: int, st: Style) -> Result<(NodeM, int, Style), ErrM> {
    match tok(c, pos) {
        Some(TokM::Str(s, q)) => Ok((
            node(pref(c, pos), ValueM::Str(s)),
            pos + 1,
            note_key_style(st, if q is Double { KeyStyle::Double } else { KeyStyle::Single }),
        )),
        Some(TokM::Bare(t)) => Ok((node(pref(c, pos), ValueM::Str(t)), pos + 1, note_key_style(st, KeyStyle::Bare))),
        _ => perr(here(c, pos), "expected an object key"@),
    }
}

/// The `:` or `=` at `pos`.
pub open spec fn p_sep(c: PCtx, pos: int, st: Style) -> Result<(int, Style), ErrM> {
    match tok(c, pos) {
        Some(TokM::Colon) => Ok((pos + 1, note_separator(st, Separator::Colon))),
        Some(TokM::Equals) => Ok((pos + 1, note_separator(st, Separator::Equals))),
        _ => perr(here(c, pos), "expected ':' or '='"@),
    }
}

/// A value at `pos`.
pub open spec fn p_value(c: PCtx, pos: int, st: Style) -> Result<(NodeM, int, Style), ErrM>
    decreases c.toks.len() - pos, 0int,
{
    let prefix = pref(c, pos);
    if pos < 0 || pos >= c.toks.len() {
        perr(eof(c), "expected a value"@)
    } else {
        match c.toks[pos] {
            TokM::LBrace => match p_object(c, pos + 1, st) {
                Err(e) => Err(e),
                Ok((entries, trailing, p, s)) => Ok((node(prefix, ValueM::Object { entries, trailing }), p, s)),
            },
            TokM::LBracket => match p_array(c, pos + 1, st) {
                Err(e) => Err(e),
                Ok((items, trailing, p, s)) => Ok((node(prefix, ValueM::Array { items, trailing }), p, s)),
            },
            TokM::Number(raw) => Ok((node(prefix, ValueM::Number(raw)), pos + 1, st)),
            TokM::Str(s, q) => Ok((node(prefix, ValueM::Str(s)), pos + 1, note_value_quote(st, quote_of_kind(q)))),
            TokM::Bare(t) => if t == "true"@ {
                Ok((node(prefix, ValueM::Bool(true)), pos + 1, st))
            } else if t == "false"@ {
                Ok((node(prefix, ValueM::Bool(false)), pos + 1, st))
            } else if t == "null"@ {
                Ok((node(prefix, ValueM::Null), pos + 1, st))
            } else {
                perr(here(c, pos), "a bare (unquoted) string is only allowed as an object key, not as a value"@)
            },
            TokM::Verbatim(_) => Ok(p_verbatim(c, pos, prefix, st)),
            _ => perr(here(c, pos), "expected a value"@),
        }
    }
}

/// Prepends `e` to a successful entry-loop result.
pub open spec fn cons_entries(e: EntryM, r: Result<(Seq<EntryM>, bool, int, Style), ErrM>) -> Result<(Seq<EntryM>, bool, int, Style), ErrM> {
    match r {
        Ok((es, seen, p, s)) => Ok((seq![e] + es, seen, p, s)),
        Err(x) => Err(x),
    }
}

/// The entries of a braced object from `pos` up to its `}`: the entries,
/// whether the last one was followed by a trailing comma, the position
/// of the `}`, and the style.
pub open spec fn p_obj_entries(c: PCtx, pos: int, st: Style) -> Result<(Seq<EntryM>, bool, int, Style), ErrM>
    decreases c.toks.len() - pos, 1int,
{
    if pos < 0 || pos > c.toks.len() {
        perr(eof(c), "expected '}'"@)
    } else if is_tok(c, pos, TokM::RBrace) {
        Ok((Seq::empty(), false, pos, st))
    } else if pos >= c.toks.len() {
        perr(eof(c), "expected '}'"@)
    } else {
        match p_key(c, pos, st) {
            Err(e) => Err(e),
            Ok((key, p1, s1)) => match p_sep(c, p1, s1) {
                Err(e) => Err(e),
                Ok((p2, s2)) => if p2 <= pos || p2 > c.toks.len() {
                    perr(eof(c), "expected '}'"@)
                } else {
                    match p_value(c, p2, s2) {
                        Err(e) => Err(e),
                        Ok((value, p3, s3)) => {
                            let e = EntryM { key, value };
                            if p3 <= pos || p3 > c.toks.len() {
                                perr(eof(c), "expected '}'"@)
                            } else if is_tok(c, p3, TokM::Comma) {
                                let s4 = note_commas(s3, true);
                                if is_tok(c, p3 + 1, TokM::RBrace) {
                                    Ok((seq![e], true, p3 + 1, s4))
                                } else {
                                    cons_entries(e, p_obj_entries(c, p3 + 1, s4))
                                }
                            } else if is_tok(c, p3, TokM::RBrace) {
                                Ok((seq![e], false, p3, s3))
                            } else if !(0 <= p3 < c.nl.len() && c.nl[p3]) {
                                perr(here(c, p3), "expected ',' or a newline between object entries"@)
                            } else {
                                cons_entries(e, p_obj_entries(c, p3, note_commas(s3, false)))
                            }
                        },
                    }
                },
            },
        }
    }
}

/// A braced object body from `pos` (after the `{`): entries, trailing
/// trivia, the position after the `}`, and the style.
pub open spec fn p_object(c: PCtx, pos: int, st: Style) -> Result<(Seq<EntryM>, Seq<char>, int, Style), ErrM>
    decreases c.toks.len() - pos, 2int,
{
    match p_obj_entries(c, pos, st) {
        Err(e) => Err(e),
        Ok((entries, seen, p, s)) => {
            let s2 = if entries.len() > 0 { note_trailing_comma(s, seen) } else { s };
            if !is_tok(c, p, TokM::RBrace) {
                perr(eof(c), "expected '}'"@)
            } else {
                Ok((entries, pref(c, p), p + 1, s2))
            }
        },
    }
}

/// Prepends `n` to a successful item-loop result.
pub open spec fn cons_items(n: NodeM, r: Result<(Seq<NodeM>, bool, int, Style), ErrM>) -> Result<(Seq<NodeM>, bool, int, Style), ErrM> {
    match r {
        Ok((ns, seen, p, s)) => Ok((seq![n] + ns, seen, p, s)),
        Err(x) => Err(x),
    }
}

/// The items of an array from `pos` up to its `]` (see
/// [`p_obj_entries`]).
pub open spec fn p_arr_items(c: PCtx, pos: int, st: Style) -> Result<(Seq<NodeM>, bool, int, Style), ErrM>
    decreases c.toks.len() - pos, 1int,
{
    if pos < 0 || pos > c.toks.len() {
        perr(eof(c), "expected ']'"@)
    } else if is_tok(c, pos, TokM::RBracket) {
        Ok((Seq::empty(), false, pos, st))
    } else if pos >= c.toks.len() {
        perr(eof(c), "expected ']'"@)
    } else {
        match p_value(c, pos, st) {
            Err(e) => Err(e),
            Ok((item, p3, s3)) => {
                if p3 <= pos || p3 > c.toks.len() {
                    perr(eof(c), "expected ']'"@)
                } else if is_tok(c, p3, TokM::Comma) {
                    let s4 = note_commas(s3, true);
                    if is_tok(c, p3 + 1, TokM::RBracket) {
                        Ok((seq![item], true, p3 + 1, s4))
                    } else {
                        cons_items(item, p_arr_items(c, p3 + 1, s4))
                    }
                } else if is_tok(c, p3, TokM::RBracket) {
                    Ok((seq![item], false, p3, s3))
                } else if !(0 <= p3 < c.nl.len() && c.nl[p3]) {
                    perr(here(c, p3), "expected ',' or a newline between array elements"@)
                } else {
                    cons_items(item, p_arr_items(c, p3, note_commas(s3, false)))
                }
            },
        }
    }
}

/// An array body from `pos` (after the `[`).
pub open spec fn p_array(c: PCtx, pos: int, st: Style) -> Result<(Seq<NodeM>, Seq<char>, int, Style), ErrM>
    decreases c.toks.len() - pos, 2int,
{
    match p_arr_items(c, pos, st) {
        Err(e) => Err(e),
        Ok((items, seen, p, s)) => {
            let s2 = if items.len() > 0 { note_trailing_comma(s, seen) } else { s };
            if !is_tok(c, p, TokM::RBracket) {
                perr(eof(c), "expected ']'"@)
            } else {
                Ok((items, pref(c, p), p + 1, s2))
            }
        },
    }
}

/// Prepends `e` to a successful bare-root result.
pub open spec fn cons_root(e: EntryM, r: Result<(Seq<EntryM>, int, Style), ErrM>) -> Result<(Seq<EntryM>, int, Style), ErrM> {
    match r {
        Ok((es, p, s)) => Ok((seq![e] + es, p, s)),
        Err(x) => Err(x),
    }
}

/// The entries of a brace-less top-level object, from `pos` to the end.
pub open spec fn p_bare_root(c: PCtx, pos: int, st: Style) -> Result<(Seq<EntryM>, int, Style), ErrM>
    decreases c.toks.len() - pos,
{
    if pos < 0 || pos >= c.toks.len() {
        Ok((Seq::empty(), pos, st))
    } else {
        match p_key(c, pos, st) {
            Err(e) => Err(e),
            Ok((key, p1, s1)) => match p_sep(c, p1, s1) {
                Err(e) => Err(e),
                Ok((p2, s2)) => match p_value(c, p2, s2) {
                    Err(e) => Err(e),
                    Ok((value, p3, s3)) => {
                        let e = EntryM { key, value };
                        if p3 <= pos || p3 > c.toks.len() {
                            Ok((seq![e], p3, s3))
                        } else if is_tok(c, p3, TokM::Comma) {
                            let s4 = note_commas(s3, true);
                            if p3 + 1 >= c.toks.len() {
                                Ok((seq![e], p3 + 1, s4))
                            } else {
                                cons_root(e, p_bare_root(c, p3 + 1, s4))
                            }
                        } else if p3 >= c.toks.len() {
                            Ok((seq![e], p3, s3))
                        } else if !(0 <= p3 < c.nl.len() && c.nl[p3]) {
                            perr(here(c, p3), "expected ',' or a newline between object entries"@)
                        } else {
                            cons_root(e, p_bare_root(c, p3, note_commas(s3, false)))
                        }
                    },
                },
            },
        }
    }
}


/// `input` without a leading byte-order mark.
pub open spec fn strip_bom(input: Seq<char>) -> Seq<char> {
    if input.len() > 0 && input[0] == '\u{FEFF}' {
        input.drop_first()
    } else {
        input
    }
}

/// The real tokens among `items`, in order.
pub open spec fn real_toks(items: Seq<ItemM>) -> Seq<TokM>
    decreases items.len(),
{
    if items.len() == 0 {
        Seq::empty()
    } else {
        match items.last() {
            ItemM::Real(t, _, _) => real_toks(items.drop_last()).push(t),
            _ => real_toks(items.drop_last()),
        }
    }
}

/// The start positions of the real tokens among `items`.
pub open spec fn real_starts(items: Seq<ItemM>) -> Seq<int>
    decreases items.len(),
{
    if items.len() == 0 {
        Seq::empty()
    } else {
        match items.last() {
            ItemM::Real(_, st, _) => real_starts(items.drop_last()).push(st),
            _ => real_starts(items.drop_last()),
        }
    }
}

/// The parser's view of a lexed input.
pub open spec fn ctx_of(input: Seq<char>, items: Seq<ItemM>) -> PCtx {
    let t = resolve_spec(items);
    PCtx {
        input,
        toks: real_toks(items),
        starts: real_starts(items),
        prefixes: t.prefixes,
        blank: t.blank_line,
        nl: t.had_newline,
    }
}

/// The document parsed from the token stream of `c`.
pub open spec fn p_document(c: PCtx) -> Result<DocumentM, ErrM> {
    let n = c.toks.len() as int;
    if n == 0 {
        Ok(DocumentM {
            root: node(Seq::empty(), ValueM::Object { entries: Seq::empty(), trailing: Seq::empty() }),
            suffix: pref(c, 0),
            bare_root: true,
            style: empty_style(),
        })
    } else {
        let r: Result<(NodeM, bool, int, Style), ErrM> = match c.toks[0] {
            TokM::LBrace => match p_object(c, 1, empty_style()) {
                Err(e) => Err(e),
                Ok((entries, trailing, p, s)) => Ok((node(pref(c, 0), ValueM::Object { entries, trailing }), false, p, s)),
            },
            TokM::LBracket => match p_array(c, 1, empty_style()) {
                Err(e) => Err(e),
                Ok((items, trailing, p, s)) => Ok((node(pref(c, 0), ValueM::Array { items, trailing }), false, p, s)),
            },
            _ => match p_bare_root(c, 0, empty_style()) {
                Err(e) => Err(e),
                Ok((entries, p, s)) => Ok((
                    node(Seq::empty(), ValueM::Object { entries, trailing: Seq::empty() }),
                    true,
                    p,
                    s,
                )),
            },
        };
        match r {
            Err(e) => Err(e),
            Ok((root, bare, p, s)) => if p != n {
                perr(here(c, p), "unexpected trailing content after root value"@)
            } else {
                Ok(DocumentM { root, suffix: pref(c, n), bare_root: bare, style: s })
            },
        }
    }
}

/// The document `input` parses to, or the error it is rejected with
/// (positioned in `strip_bom(input)`).
pub open spec fn parse_spec(input: Seq<char>) -> Result<DocumentM, ErrM> {
    let s = strip_bom(input);
    match lex_spec(s) {
        Err(e) => Err(e),
        Ok(items) => p_document(ctx_of(s, items)),
    }
}

/// Agreement of a parser step with its specification: on success the
/// same value, new position and style; on failure the same error.
pub open spec fn step_agrees<T, M>(
    r: Result<T, ParseError>,
    m: Result<(M, int, Style), ErrM>,
    input: Seq<char>,
    pos: usize,
    st: Style,
    rel: spec_fn(T, M) -> bool,
) -> bool {
    match (r, m) {
        (Ok(a), Ok((b, p, s))) => rel(a, b) && pos as int == p && st == s,
        (Err(e), Err(em)) => err_matches(e, input, em),
        _ => false,
    }
}

struct Parser<'a> {
    input: &'a Vec<char>,
    toks: Vec<RealTok>,
    spans: Vec<Span>,
    prefixes: Vec<String>,
    blank_line: Vec<bool>,
    had_newline: Vec<bool>,
    pos: usize,
    style: Style,
}

impl<'a> Parser<'a> {
    spec fn ctx(&self) -> PCtx {
        PCtx {
            input: self.input@,
            toks: self.toks@.map_values(|t: RealTok| t@),
            starts: self.spans@.map_values(|s: Span| s.start as int),
            prefixes: strings_view(self.prefixes@),
            blank: self.blank_line@,
            nl: self.had_newline@,
        }
    }

    spec fn n(&self) -> int {
        self.toks@.len() as int
    }

    spec fn wf(&self) -> bool {
        &&& self.spans@.len() == self.toks@.len()
        &&& self.prefixes@.len() == self.toks@.len() + 1
        &&& self.blank_line@.len() == self.toks@.len() + 1
        &&& self.had_newline@.len() == self.toks@.len() + 1
        &&& self.input@.len() < usize::MAX
        &&& self.toks@.len() + 2 < usize::MAX
        &&& self.pos <= self.toks@.len()
        &&& toks_numbers_valid(self.ctx().toks)
    }

    spec fn same_ctx(&self, other: &Parser) -> bool {
        &&& self.ctx() == other.ctx()
        &&& self.toks@.len() == other.toks@.len()
    }

    fn take_prefix(&self, idx: usize) -> (r: String)
        requires
            self.wf(),
        ensures
            r@ == pref(self.ctx(), idx as int),
    {
        if idx < self.prefixes.len() {
            self.prefixes[idx].clone()
        } else {
            String::new()
        }
    }

    fn gap_has_newline(&self, idx: usize) -> (r: bool)
        requires
            self.wf(),
        ensures
            r == (0 <= idx < self.ctx().nl.len() && self.ctx().nl[idx as int]),
    {
        if idx < self.had_newline.len() {
            self.had_newline[idx]
        } else {
            false
        }
    }

    fn error_at_tok(&self, idx: usize, message: &str) -> (r: ParseError)
        requires
            self.wf(),
        ensures
            err_matches(r, self.input@, ErrM { pos: here(self.ctx(), idx as int), msg: message@ }),
    {
        let pos = if idx < self.spans.len() { self.spans[idx].start } else { self.input.len() };
        lexer::error_at(self.input, pos, String::from_str(message))
    }

    fn eof_error(&self, message: &str) -> (r: ParseError)
        requires
            self.wf(),
        ensures
            err_matches(r, self.input@, ErrM { pos: eof(self.ctx()), msg: message@ }),
    {
        lexer::error_at(self.input, self.input.len(), String::from_str(message))
    }

    fn tok_is_rbrace(&self, idx: usize) -> (r: bool)
        requires
            self.wf(),
        ensures
            r == is_tok(self.ctx(), idx as int, TokM::RBrace),
    {
        idx < self.toks.len() && match &self.toks[idx] {
            RealTok::RBrace => true,
            _ => false,
        }
    }

    fn tok_is_rbracket(&self, idx: usize) -> (r: bool)
        requires
            self.wf(),
        ensures
            r == is_tok(self.ctx(), idx as int, TokM::RBracket),
    {
        idx < self.toks.len() && match &self.toks[idx] {
            RealTok::RBracket => true,
            _ => false,
        }
    }

    fn tok_is_verbatim(&self, idx: usize) -> (r: bool)
        requires
            self.wf(),
            idx < self.toks@.len(),
        ensures
            r == (self.ctx().toks[idx as int] is Verbatim),
    {
        match &self.toks[idx] {
            RealTok::VerbatimFragment(_) => true,
            _ => false,
        }
    }

    fn tok_is_comma(&self, idx: usize) -> (r: bool)
        requires
            self.wf(),
        ensures
            r == is_tok(self.ctx(), idx as int, TokM::Comma),
    {
        idx < self.toks.len() && match &self.toks[idx] {
            RealTok::Comma => true,
            _ => false,
        }
    }

    fn parse_key(&mut self) -> (r: Result<Node, ParseError>)
        requires
            old(self).wf(),
        ensures
            final(self).wf(),
            final(self).same_ctx(old(self)),
            step_agrees(r, p_key(old(self).ctx(), old(self).pos as int, old(self).style), old(self).input@,
                final(self).pos, final(self).style, |a: Node, b: NodeM| a@ == b),
            r is Ok ==> final(self).pos == old(self).pos + 1,
            r is Err ==> final(self).pos == old(self).pos,
    {
        let idx = self.pos;
        let prefix = self.take_prefix(idx);
        if idx >= self.toks.len() {
            return Err(self.error_at_tok(idx, "expected an object key"));
        }
        match &self.toks[idx] {
            RealTok::Str(s, quote) => {
                let ks = match quote {
                    QuoteKind::Double => KeyStyle::Double,
                    QuoteKind::Single => KeyStyle::Single,
                };
                let v = s.clone();
                self.style.note_key_style(ks);
                self.pos = idx + 1;
                Ok(Node { prefix, value: Value::Str(CsonStr { value: v }) })
            },
            RealTok::Bare(text) => {
                let v = text.clone();
                self.style.note_key_style(KeyStyle::Bare);
                self.pos = idx + 1;
                Ok(Node { prefix, value: Value::Str(CsonStr { value: v }) })
            },
            _ => Err(self.error_at_tok(idx, "expected an object key")),
        }
    }

    fn expect_separator(&mut self) -> (r: Result<(), ParseError>)
        requires
            old(self).wf(),
        ensures
            final(self).wf(),
            final(self).same_ctx(old(self)),
            step_agrees(
                match r { Ok(()) => Ok::<bool, ParseError>(true), Err(e) => Err(e) },
                match p_sep(old(self).ctx(), old(self).pos as int, old(self).style) {
                    Ok((p, s)) => Ok::<(bool, int, Style), ErrM>((true, p, s)),
                    Err(e) => Err(e),
                },
                old(self).input@, final(self).pos, final(self).style, |a: bool, b: bool| a == b),
            r is Ok ==> final(self).pos == old(self).pos + 1,
            r is Err ==> final(self).pos == old(self).pos,
    {
        let idx = self.pos;
        if idx < self.toks.len() {
            match &self.toks[idx] {
                RealTok::Colon => {
                    self.style.note_separator(Separator::Colon);
                    self.pos = idx + 1;
                    return Ok(());
                },
                RealTok::Equals => {
                    self.style.note_separator(Separator::Equals);
                    self.pos = idx + 1;
                    return Ok(());
                },
                _ => {},
            }
        }
        Err(self.error_at_tok(idx, "expected ':' or '='"))
    }

    fn parse_verbatim_value(&mut self, prefix: String) -> (r: Node)
        requires
            old(self).wf(),
            old(self).pos < old(self).toks@.len(),
            old(self).ctx().toks[old(self).pos as int] is Verbatim,
        ensures
            final(self).wf(),
            final(self).same_ctx(old(self)),
            p_verbatim(old(self).ctx(), old(self).pos as int, prefix@, old(self).style)
                == (r@, final(self).pos as int, final(self).style),
            old(self).pos < final(self).pos <= old(self).toks@.len(),
    {
        let ghost c = self.ctx();
        let start = self.pos;
        let mut joined = match &self.toks[start] {
            RealTok::VerbatimFragment(t) => t.clone(),
            _ => String::new(),
        };
        assert(joined@ == frag(c, start as int));
        let mut extra = String::new();
        let mut j = start + 1;
        while j < self.toks.len() && self.tok_is_verbatim(j) && !self.blank_line[j]
            invariant
                self.wf(),
                c == self.ctx(),
                start < j <= self.toks@.len(),
                verb_end(c, j as int) == verb_end(c, start + 1),
                joined@ == verb_join(c, start as int, j as int),
                extra@ == verb_extra(c, start + 1, j as int),
            decreases self.toks@.len() - j,
        {
            assert(c.toks[j as int] == self.toks@[j as int]@);
            let ghost before_j = joined@;
            let ghost before_e = extra@;
            extra.append(self.prefixes[j].as_str());
            push_char(&mut joined, '\n');
            match &self.toks[j] {
                RealTok::VerbatimFragment(t) => {
                    joined.append(t.as_str());
                },
                _ => {},
            }
            assert(joined@ =~= before_j + seq!['\n'] + frag(c, j as int));
            assert(extra@ =~= before_e + pref(c, j as int));
            j += 1;
        }
        proof {
            if j < self.toks@.len() {
                assert(c.toks[j as int] == self.toks@[j as int]@);
            }
        }
        if j - start > 1 {
            self.style.note_verbatim_strings(true);
        }
        self.pos = j;
        let mut p = prefix;
        p.append(extra.as_str());
        Node { prefix: p, value: Value::Str(CsonStr { value: joined }) }
    }

    fn parse_value(&mut self) -> (r: Result<Node, ParseError>)
        requires
            old(self).wf(),
        ensures
            final(self).wf(),
            final(self).same_ctx(old(self)),
            step_agrees(r, p_value(old(self).ctx(), old(self).pos as int, old(self).style), old(self).input@,
                final(self).pos, final(self).style, |a: Node, b: NodeM| a@ == b),
            r is Ok ==> old(self).pos < final(self).pos <= old(self).toks@.len(),
        decreases old(self).toks@.len() - old(self).pos, 0int,
    {
        let ghost c = self.ctx();
        let idx = self.pos;
        let prefix = self.take_prefix(idx);
        if idx >= self.toks.len() {
            return Err(self.eof_error("expected a value"));
        }
        assert(c.toks[idx as int] == self.toks@[idx as int]@);
        match &self.toks[idx] {
            RealTok::LBrace => {
                self.pos = idx + 1;
                match self.parse_object_body() {
                    Ok((entries, trailing)) => Ok(Node { prefix, value: Value::Object { entries, trailing } }),
                    Err(e) => Err(e),
                }
            },
            RealTok::LBracket => {
                self.pos = idx + 1;
                match self.parse_array_body() {
                    Ok((items, trailing)) => Ok(Node { prefix, value: Value::Array { items, trailing } }),
                    Err(e) => Err(e),
                }
            },
            RealTok::Number(raw) => {
                let raw = raw.clone();
                assert(crate::number::valid_literal(raw@));
                self.pos = idx + 1;
                Ok(Node { prefix, value: Value::Number(Number { raw }) })
            },
            RealTok::Str(s, quote) => {
                let q = Quote::from(*quote);
                let v = s.clone();
                self.style.note_value_quote(q);
                self.pos = idx + 1;
                Ok(Node { prefix, value: Value::Str(CsonStr { value: v }) })
            },
            RealTok::Bare(text) => {
                let is_true = str_eq(text.as_str(), "true");
                let is_false = str_eq(text.as_str(), "false");
                let is_null = str_eq(text.as_str(), "null");
                self.pos = idx + 1;
                if is_true {
                    Ok(Node { prefix, value: Value::Bool(true) })
                } else if is_false {
                    Ok(Node { prefix, value: Value::Bool(false) })
                } else if is_null {
                    Ok(Node { prefix, value: Value::Null })
                } else {
                    Err(self.error_at_tok(
                        idx,
                        "a bare (unquoted) string is only allowed as an object key, not as a value",
                    ))
                }
            },
            RealTok::VerbatimFragment(_) => Ok(self.parse_verbatim_value(prefix)),
            _ => Err(self.error_at_tok(idx, "expected a value")),
        }
    }

    fn parse_object_body(&mut self) -> (r: Result<(Vec<Entry>, String), ParseError>)
        requires
            old(self).wf(),
        ensures
            final(self).wf(),
            final(self).same_ctx(old(self)),
            match (r, p_object(old(self).ctx(), old(self).pos as int, old(self).style)) {
                (Ok((es, tr)), Ok((mes, mtr, p, s))) => crate::entries_model(es@) == mes && tr@ == mtr
                    && final(self).pos as int == p && final(self).style == s,
                (Err(e), Err(em)) => err_matches(e, old(self).input@, em),
                _ => false,
            },
            r is Ok ==> old(self).pos < final(self).pos <= old(self).toks@.len(),
        decreases old(self).toks@.len() - old(self).pos, 2int,
    {
        let ghost c = self.ctx();
        let ghost pos0 = self.pos as int;
        let ghost st0 = self.style;
        let mut entries: Vec<Entry> = Vec::new();
        let mut seen = false;
        loop
            invariant_except_break
                self.wf(),
                c == self.ctx(),
                self.toks@.len() == old(self).toks@.len(),
                self.input@ == old(self).input@,
                pos0 <= self.pos,
                pos0 == old(self).pos,
                c == old(self).ctx(),
                st0 == old(self).style,
                p_obj_entries(c, pos0, st0) == cons_all_entries(crate::entries_model(entries@),
                    p_obj_entries(c, self.pos as int, self.style)),
            ensures
                self.wf(),
                c == self.ctx(),
                self.toks@.len() == old(self).toks@.len(),
                self.input@ == old(self).input@,
                pos0 <= self.pos,
                p_obj_entries(c, pos0, st0) == Ok::<(Seq<EntryM>, bool, int, Style), ErrM>(
                    (crate::entries_model(entries@), seen, self.pos as int, self.style)),
            decreases self.toks@.len() - self.pos,
        {
            let ghost acc = crate::entries_model(entries@);
            let ghost p_it = self.pos as int;
            let ghost s_it = self.style;
            if self.tok_is_rbrace(self.pos) {
                seen = false;
                assert(acc + Seq::<EntryM>::empty() =~= acc);
                break;
            }
            if self.pos >= self.toks.len() {
                return Err(self.eof_error("expected '}'"));
            }
            let key = match self.parse_key() {
                Ok(k) => k,
                Err(e) => {
                    return Err(e);
                },
            };
            match self.expect_separator() {
                Ok(()) => {},
                Err(e) => {
                    return Err(e);
                },
            }
            let value = match self.parse_value() {
                Ok(v) => v,
                Err(e) => {
                    return Err(e);
                },
            };
            let ghost em = EntryM { key: key@, value: value@ };
            entries.push(Entry { key, value });
            assert(crate::entries_model(entries@) =~= acc.push(em));
            if self.tok_is_comma(self.pos) {
                self.style.note_commas(true);
                self.pos = self.pos + 1;
                if self.tok_is_rbrace(self.pos) {
                    seen = true;
                    assert(acc + seq![em] =~= acc.push(em));
                    break;
                }
                proof { lemma_cons_all_entries(acc, em, p_obj_entries(c, self.pos as int, self.style)); }
            } else if self.tok_is_rbrace(self.pos) {
                seen = false;
                assert(acc + seq![em] =~= acc.push(em));
                break;
            } else {
                if !self.gap_has_newline(self.pos) {
                    return Err(self.error_at_tok(self.pos, "expected ',' or a newline between object entries"));
                }
                self.style.note_commas(false);
                proof { lemma_cons_all_entries(acc, em, p_obj_entries(c, self.pos as int, self.style)); }
            }
        }
        if entries.len() > 0 {
            self.style.note_trailing_comma(seen);
        }
        if !self.tok_is_rbrace(self.pos) {
            return Err(self.eof_error("expected '}'"));
        }
        let trailing = self.take_prefix(self.pos);
        self.pos = self.pos + 1;
        Ok((entries, trailing))
    }

    fn parse_array_body(&mut self) -> (r: Result<(Vec<Node>, String), ParseError>)
        requires
            old(self).wf(),
        ensures
            final(self).wf(),
            final(self).same_ctx(old(self)),
            match (r, p_array(old(self).ctx(), old(self).pos as int, old(self).style)) {
                (Ok((ns, tr)), Ok((mns, mtr, p, s))) => crate::nodes_model(ns@) == mns && tr@ == mtr
                    && final(self).pos as int == p && final(self).style == s,
                (Err(e), Err(em)) => err_matches(e, old(self).input@, em),
                _ => false,
            },
            r is Ok ==> old(self).pos < final(self).pos <= old(self).toks@.len(),
        decreases old(self).toks@.len() - old(self).pos, 2int,
    {
        let ghost c = self.ctx();
        let ghost pos0 = self.pos as int;
        let ghost st0 = self.style;
        let mut items: Vec<Node> = Vec::new();
        let mut seen = false;
        loop
            invariant_except_break
                self.wf(),
                c == self.ctx(),
                self.toks@.len() == old(self).toks@.len(),
                self.input@ == old(self).input@,
                pos0 <= self.pos,
                pos0 == old(self).pos,
                c == old(self).ctx(),
                st0 == old(self).style,
                p_arr_items(c, pos0, st0) == cons_all_items(crate::nodes_model(items@),
                    p_arr_items(c, self.pos as int, self.style)),
            ensures
                self.wf(),
                c == self.ctx(),
                self.toks@.len() == old(self).toks@.len(),
                self.input@ == old(self).input@,
                pos0 <= self.pos,
                p_arr_items(c, pos0, st0) == Ok::<(Seq<NodeM>, bool, int, Style), ErrM>(
                    (crate::nodes_model(items@), seen, self.pos as int, self.style)),
            decreases self.toks@.len() - self.pos,
        {
            let ghost acc = crate::nodes_model(items@);
            if self.tok_is_rbracket(self.pos) {
                seen = false;
                assert(acc + Seq::<NodeM>::empty() =~= acc);
                break;
            }
            if self.pos >= self.toks.len() {
                return Err(self.eof_error("expected ']'"));
            }
            let item = match self.parse_value() {
                Ok(v) => v,
                Err(e) => {
                    return Err(e);
                },
            };
            let ghost nm = item@;
            items.push(item);
            assert(crate::nodes_model(items@) =~= acc.push(nm));
            if self.tok_is_comma(self.pos) {
                self.style.note_commas(true);
                self.pos = self.pos + 1;
                if self.tok_is_rbracket(self.pos) {
                    seen = true;
                    assert(acc + seq![nm] =~= acc.push(nm));
                    break;
                }
                proof { lemma_cons_all_items(acc, nm, p_arr_items(c, self.pos as int, self.style)); }
            } else if self.tok_is_rbracket(self.pos) {
                seen = false;
                assert(acc + seq![nm] =~= acc.push(nm));
                break;
            } else {
                if !self.gap_has_newline(self.pos) {
                    return Err(self.error_at_tok(self.pos, "expected ',' or a newline between array elements"));
                }
                self.style.note_commas(false);
                proof { lemma_cons_all_items(acc, nm, p_arr_items(c, self.pos as int, self.style)); }
            }
        }
        if items.len() > 0 {
            self.style.note_trailing_comma(seen);
        }
        if !self.tok_is_rbracket(self.pos) {
            return Err(self.eof_error("expected ']'"));
        }
        let trailing = self.take_prefix(self.pos);
        self.pos = self.pos + 1;
        Ok((items, trailing))
    }

    fn parse_bare_root_entries(&mut self) -> (r: Result<Vec<Entry>, ParseError>)
        requires
            old(self).wf(),
        ensures
            final(self).wf(),
            final(self).same_ctx(old(self)),
            step_agrees(r, p_bare_root(old(self).ctx(), old(self).pos as int, old(self).style), old(self).input@,
                final(self).pos, final(self).style, |a: Vec<Entry>, b: Seq<EntryM>| crate::entries_model(a@) == b),
    {
        let ghost c = self.ctx();
        let ghost pos0 = self.pos as int;
        let ghost st0 = self.style;
        let mut entries: Vec<Entry> = Vec::new();
        loop
            invariant_except_break
                self.wf(),
                c == self.ctx(),
                c == old(self).ctx(),
                st0 == old(self).style,
                self.toks@.len() == old(self).toks@.len(),
                self.input@ == old(self).input@,
                pos0 <= self.pos,
                pos0 == old(self).pos,
                p_bare_root(c, pos0, st0) == cons_all_root(crate::entries_model(entries@),
                    p_bare_root(c, self.pos as int, self.style)),
            ensures
                self.wf(),
                c == self.ctx(),
                c == old(self).ctx(),
                self.toks@.len() == old(self).toks@.len(),
                self.input@ == old(self).input@,
                p_bare_root(c, pos0, st0) == Ok::<(Seq<EntryM>, int, Style), ErrM>(
                    (crate::entries_model(entries@), self.pos as int, self.style)),
            decreases self.toks@.len() - self.pos,
        {
            let ghost acc = crate::entries_model(entries@);
            if self.pos >= self.toks.len() {
                assert(acc + Seq::<EntryM>::empty() =~= acc);
                break;
            }
            let key = match self.parse_key() {
                Ok(k) => k,
                Err(e) => {
                    return Err(e);
                },
            };
            match self.expect_separator() {
                Ok(()) => {},
                Err(e) => {
                    return Err(e);
                },
            }
            let value = match self.parse_value() {
                Ok(v) => v,
                Err(e) => {
                    return Err(e);
                },
            };
            let ghost em = EntryM { key: key@, value: value@ };
            entries.push(Entry { key, value });
            assert(crate::entries_model(entries@) =~= acc.push(em));
            if self.tok_is_comma(self.pos) {
                self.style.note_commas(true);
                self.pos = self.pos + 1;
                if self.pos >= self.toks.len() {
                    assert(acc + seq![em] =~= acc.push(em));
                    break;
                }
                proof { lemma_cons_all_root(acc, em, p_bare_root(c, self.pos as int, self.style)); }
            } else if self.pos >= self.toks.len() {
                assert(acc + seq![em] =~= acc.push(em));
                break;
            } else {
                if !self.gap_has_newline(self.pos) {
                    return Err(self.error_at_tok(self.pos, "expected ',' or a newline between object entries"));
                }
                self.style.note_commas(false);
                proof { lemma_cons_all_root(acc, em, p_bare_root(c, self.pos as int, self.style)); }
            }
        }
        Ok(entries)
    }
}

/// Prefixes `acc` onto a successful entry-loop result.
pub open spec fn cons_all_entries(acc: Seq<EntryM>, r: Result<(Seq<EntryM>, bool, int, Style), ErrM>) -> Result<(Seq<EntryM>, bool, int, Style), ErrM> {
    match r {
        Ok((es, seen, p, s)) => Ok((acc + es, seen, p, s)),
        Err(x) => Err(x),
    }
}

/// Prefixes `acc` onto a successful item-loop result.
pub open spec fn cons_all_items(acc: Seq<NodeM>, r: Result<(Seq<NodeM>, bool, int, Style), ErrM>) -> Result<(Seq<NodeM>, bool, int, Style), ErrM> {
    match r {
        Ok((ns, seen, p, s)) => Ok((acc + ns, seen, p, s)),
        Err(x) => Err(x),
    }
}

proof fn lemma_cons_all_entries(acc: Seq<EntryM>, e: EntryM, r: Result<(Seq<EntryM>, bool, int, Style), ErrM>)
    ensures
        cons_all_entries(acc, cons_entries(e, r)) == cons_all_entries(acc.push(e), r),
{
    match r {
        Ok((es, seen, p, s)) => {
            assert(acc + (seq![e] + es) =~= acc.push(e) + es);
        },
        Err(_) => {},
    }
}

proof fn lemma_cons_all_items(acc: Seq<NodeM>, n: NodeM, r: Result<(Seq<NodeM>, bool, int, Style), ErrM>)
    ensures
        cons_all_items(acc, cons_items(n, r)) == cons_all_items(acc.push(n), r),
{
    match r {
        Ok((ns, seen, p, s)) => {
            assert(acc + (seq![n] + ns) =~= acc.push(n) + ns);
        },
        Err(_) => {},
    }
}


/// Prefixes `acc` onto a successful bare-root result.
pub open spec fn cons_all_root(acc: Seq<EntryM>, r: Result<(Seq<EntryM>, int, Style), ErrM>) -> Result<(Seq<EntryM>, int, Style), ErrM> {
    match r {
        Ok((es, p, s)) => Ok((acc + es, p, s)),
        Err(x) => Err(x),
    }
}

proof fn lemma_cons_all_root(acc: Seq<EntryM>, e: EntryM, r: Result<(Seq<EntryM>, int, Style), ErrM>)
    ensures
        cons_all_root(acc, cons_root(e, r)) == cons_all_root(acc.push(e), r),
{
    match r {
        Ok((es, p, s)) => {
            assert(acc + (seq![e] + es) =~= acc.push(e) + es);
        },
        Err(_) => {},
    }
}

/// A copy of a token.
fn copy_tok(t: &RealTok) -> (r: RealTok)
    ensures
        r@ == t@,
{
    match t {
        RealTok::LBrace => RealTok::LBrace,
        RealTok::RBrace => RealTok::RBrace,
        RealTok::LBracket => RealTok::LBracket,
        RealTok::RBracket => RealTok::RBracket,
        RealTok::Colon => RealTok::Colon,
        RealTok::Equals => RealTok::Equals,
        RealTok::Comma => RealTok::Comma,
        RealTok::Number(x) => RealTok::Number(x.clone()),
        RealTok::Str(x, q) => RealTok::Str(x.clone(), *q),
        RealTok::Bare(x) => RealTok::Bare(x.clone()),
        RealTok::VerbatimFragment(x) => RealTok::VerbatimFragment(x.clone()),
    }
}

/// The real tokens of `items`, with their spans.
fn real_tokens(items: &Vec<Item>) -> (r: (Vec<RealTok>, Vec<Span>))
    ensures
        r.0@.map_values(|t: RealTok| t@) == real_toks(items_view(items@)),
        r.1@.map_values(|s: Span| s.start as int) == real_starts(items_view(items@)),
        r.0@.len() == r.1@.len(),
{
    let ghost its = items_view(items@);
    let mut toks: Vec<RealTok> = Vec::new();
    let mut spans: Vec<Span> = Vec::new();
    let mut k: usize = 0;
    while k < items.len()
        invariant
            k <= items@.len(),
            its == items_view(items@),
            toks@.map_values(|t: RealTok| t@) == real_toks(its.take(k as int)),
            spans@.map_values(|s: Span| s.start as int) == real_starts(its.take(k as int)),
            spans@.len() == toks@.len(),
        decreases items@.len() - k,
    {
        assert(its.take(k + 1).drop_last() =~= its.take(k as int));
        assert(its[k as int] == items@[k as int]@);
        let ghost tv = toks@;
        let ghost sv = spans@;
        match &items[k] {
            Item::Real(t, sp) => {
                toks.push(copy_tok(t));
                spans.push(*sp);
                assert(toks@.map_values(|t: RealTok| t@) =~= tv.map_values(|t: RealTok| t@).push(t@));
                assert(spans@.map_values(|s: Span| s.start as int) =~= sv.map_values(|s: Span| s.start as int).push(sp.start as int));
            },
            _ => {},
        }
        k += 1;
    }
    assert(its.take(items@.len() as int) =~= its);
    (toks, spans)
}

impl<'a> Parser<'a> {
    /// Parses the root value of a non-empty token stream: whether it was
    /// a bare object, and the node.
    fn parse_root(&mut self) -> (r: Result<(Node, bool), ParseError>)
        requires
            old(self).wf(),
            old(self).pos == 0,
            old(self).toks@.len() > 0,
            old(self).style == empty_style(),
        ensures
            final(self).wf(),
            final(self).same_ctx(old(self)),
            ({
                let c = old(self).ctx();
                let m: Result<(NodeM, bool, int, Style), ErrM> = match c.toks[0] {
                    TokM::LBrace => match p_object(c, 1, empty_style()) {
                        Err(e) => Err(e),
                        Ok((entries, trailing, p, s)) => Ok((node(pref(c, 0), ValueM::Object { entries, trailing }), false, p, s)),
                    },
                    TokM::LBracket => match p_array(c, 1, empty_style()) {
                        Err(e) => Err(e),
                        Ok((items, trailing, p, s)) => Ok((node(pref(c, 0), ValueM::Array { items, trailing }), false, p, s)),
                    },
                    _ => match p_bare_root(c, 0, empty_style()) {
                        Err(e) => Err(e),
                        Ok((entries, p, s)) => Ok((
                            node(Seq::empty(), ValueM::Object { entries, trailing: Seq::empty() }),
                            true,
                            p,
                            s,
                        )),
                    },
                };
                match (r, m) {
                    (Ok((a, b)), Ok((ma, mb, p, s))) => a@ == ma && b == mb && final(self).pos as int == p
                        && final(self).style == s,
                    (Err(e), Err(em)) => err_matches(e, old(self).input@, em),
                    _ => false,
                }
            }),
    {
        let ghost c = self.ctx();
        assert(c.toks[0] == self.toks@[0]@);
        let first_kind: u8 = match &self.toks[0] {
            RealTok::LBrace => 0,
            RealTok::LBracket => 1,
            _ => 2,
        };
        if first_kind == 0 {
            let prefix = self.take_prefix(0);
            self.pos = 1;
            match self.parse_object_body() {
                Ok((entries, trailing)) => Ok((Node { prefix, value: Value::Object { entries, trailing } }, false)),
                Err(e) => Err(e),
            }
        } else if first_kind == 1 {
            let prefix = self.take_prefix(0);
            self.pos = 1;
            match self.parse_array_body() {
                Ok((items, trailing)) => Ok((Node { prefix, value: Value::Array { items, trailing } }, false)),
                Err(e) => Err(e),
            }
        } else {
            match self.parse_bare_root_entries() {
                Ok(entries) => Ok((
                    Node { prefix: String::new(), value: Value::Object { entries, trailing: String::new() } },
                    true,
                )),
                Err(e) => Err(e),
            }
        }
    }
}

/// Parses CSON text into a [`Document`], keeping every comment.
pub fn parse_document(text: &str) -> (r: Result<Document, ParseError>)
    requires
        text@.len() + 3 < usize::MAX,
    ensures
        match (r, parse_spec(text@)) {
            (Ok(d), Ok(m)) => d@ == m,
            (Err(e), Err(em)) => err_matches(e, strip_bom(text@), em),
            _ => false,
        },
{
    let mut input = crate::text::chars_of(text);
    if input.len() > 0 && input[0] == '\u{FEFF}' {
        input.remove(0);
    }
    assert(input@ =~= strip_bom(text@));
    let items = match lexer::lex(&input) {
        Ok(v) => v,
        Err(e) => {
            return Err(e);
        },
    };
    let ghost its = items_view(items@);
    let info = trivia::resolve(&items);
    let (toks, spans) = real_tokens(&items);
    let n = toks.len();
    proof {
        crate::trivia::lemma_resolve_lens(its);
        lemma_real_toks_count(its);
        crate::number::lemma_lex_numbers_valid(input@, 0);
        lemma_real_toks_numbers(its);
        lexer::lemma_lex_len(input@, 0);
        assert(toks@.map_values(|t: RealTok| t@).len() == toks@.len());
    }
    let mut p = Parser {
        input: &input,
        toks,
        spans,
        prefixes: info.prefixes,
        blank_line: info.blank_line,
        had_newline: info.had_newline,
        pos: 0,
        style: Style::default(),
    };
    assert(p.ctx() == ctx_of(input@, its));
    assert(p.wf());
    if n == 0 {
        let suffix = p.take_prefix(0);
        let entries: Vec<Entry> = Vec::new();
        assert(crate::entries_model(entries@) =~= Seq::<EntryM>::empty());
        let d = Document {
            root: Node { prefix: String::new(), value: Value::Object { entries, trailing: String::new() } },
            suffix,
            bare_root: true,
            style: p.style,
        };
        return Ok(d);
    }
    let (root, bare_root) = match p.parse_root() {
        Ok(x) => x,
        Err(e) => {
            return Err(e);
        },
    };
    if p.pos != n {
        return Err(p.error_at_tok(p.pos, "unexpected trailing content after root value"));
    }
    let suffix = p.take_prefix(n);
    Ok(Document { root, suffix, bare_root, style: p.style })
}

/// Every number token of `toks` holds a valid literal.
spec fn toks_numbers_valid(toks: Seq<TokM>) -> bool {
    forall|k: int| 0 <= k < toks.len() ==> (#[trigger] toks[k] matches TokM::Number(t) ==> crate::number::valid_literal(t))
}

proof fn lemma_real_toks_numbers(items: Seq<ItemM>)
    requires
        crate::number::number_tokens_valid(items),
    ensures
        toks_numbers_valid(real_toks(items)),
    decreases items.len(),
{
    if items.len() > 0 {
        let init = items.drop_last();
        assert forall|k: int| 0 <= k < init.len() implies (#[trigger] init[k] matches ItemM::Real(TokM::Number(t), _, _)
            ==> crate::number::valid_literal(t)) by {
            assert(init[k] == items[k]);
        }
        lemma_real_toks_numbers(init);
        let last = items[items.len() - 1];
        assert(items.last() == last);
        let rt = real_toks(items);
        assert forall|k: int| 0 <= k < rt.len() implies (#[trigger] rt[k] matches TokM::Number(t)
            ==> crate::number::valid_literal(t)) by {
            if k < real_toks(init).len() {
                match last {
                    ItemM::Real(_, _, _) => assert(rt[k] == real_toks(init)[k]),
                    _ => {},
                }
            }
        }
    }
}

pub proof fn lemma_real_toks_count(items: Seq<ItemM>)
    ensures
        real_toks(items).len() == crate::trivia::count_real(items),
        real_starts(items).len() == crate::trivia::count_real(items),
        real_toks(items).len() <= items.len(),
    decreases items.len(),
{
    if items.len() > 0 {
        lemma_real_toks_count(items.drop_last());
    }
}

// ---------------------------------------------------------------------
// Every trivia slot of a parsed document holds only trivia.

/// Every trivia slot of `d` holds only whitespace and `#` comments.
pub open spec fn doc_trivia_valid(d: DocumentM) -> bool {
    trivia_valid(d.root) && trivia::is_valid_prefix_spec(d.suffix)
}

/// The form the parser gives a tree: every trivia slot of `n` is a run of
/// comment lines, every number a literal, every key a string.
pub open spec fn parsed_form(n: NodeM) -> bool
    decreases n,
{
    &&& trivia::comment_lines(n.prefix)
    &&& match n.value {
        ValueM::Number(raw) => crate::number::valid_literal(raw),
        ValueM::Array { items, trailing } => trivia::comment_lines(trailing) && forall|i: int|
            0 <= i < items.len() ==> parsed_form(#[trigger] items[i]),
        ValueM::Object { entries, trailing } => trivia::comment_lines(trailing) && forall|i: int|
            0 <= i < entries.len() ==> parsed_form(#[trigger] entries[i].key) && entries[i].key.value is Str
                && parsed_form(entries[i].value),
        _ => true,
    }
}

proof fn lemma_lines_valid(n: NodeM)
    requires
        parsed_form(n),
    ensures
        trivia_valid(n),
    decreases n,
{
    trivia::lemma_comment_lines_valid_prefix(n.prefix);
    match n.value {
        ValueM::Array { items, trailing } => {
            trivia::lemma_comment_lines_valid_prefix(trailing);
            assert forall|i: int| 0 <= i < items.len() implies trivia_valid(#[trigger] items[i]) by {
                lemma_lines_valid(items[i]);
            }
        },
        ValueM::Object { entries, trailing } => {
            trivia::lemma_comment_lines_valid_prefix(trailing);
            assert forall|i: int| 0 <= i < entries.len() implies trivia_valid(#[trigger] entries[i].key) && trivia_valid(
                entries[i].value,
            ) by {
                lemma_lines_valid(entries[i].key);
                lemma_lines_valid(entries[i].value);
            }
        },
        _ => {},
    }
}

/// All the parser's trivia strings are runs of comment lines.
spec fn prefs_ok(c: PCtx) -> bool {
    forall|j: int| 0 <= j < c.prefixes.len() ==> trivia::comment_lines(#[trigger] c.prefixes[j])
}

proof fn lemma_pref_ok(c: PCtx, pos: int)
    requires
        prefs_ok(c),
    ensures
        trivia::comment_lines(pref(c, pos)),
{
    if !(0 <= pos < c.prefixes.len()) {
        assert(trivia::comment_lines(Seq::<char>::empty()));
    }
}

proof fn lemma_verb_extra_ok(c: PCtx, from: int, to: int)
    requires
        prefs_ok(c),
    ensures
        trivia::comment_lines(verb_extra(c, from, to)),
    decreases to - from,
{
    if to <= from {
        assert(trivia::comment_lines(Seq::<char>::empty()));
    } else {
        lemma_verb_extra_ok(c, from, to - 1);
        lemma_pref_ok(c, to - 1);
        trivia::lemma_comment_lines_concat(verb_extra(c, from, to - 1), pref(c, to - 1));
    }
}

proof fn lemma_value_lines(c: PCtx, pos: int, st: Style)
    requires
        prefs_ok(c),
        toks_numbers_valid(c.toks),
    ensures
        p_value(c, pos, st) matches Ok((n, _, _)) ==> parsed_form(n),
    decreases c.toks.len() - pos, 0int,
{
    lemma_pref_ok(c, pos);
    if 0 <= pos < c.toks.len() {
        match c.toks[pos] {
            TokM::LBrace => {
                lemma_object_lines(c, pos + 1, st);
            },
            TokM::LBracket => {
                lemma_array_lines(c, pos + 1, st);
            },
            TokM::Number(raw) => {
                assert(c.toks[pos] matches TokM::Number(t) ==> crate::number::valid_literal(t));
            },
            TokM::Verbatim(_) => {
                let e = verb_end(c, pos + 1);
                lemma_verb_extra_ok(c, pos + 1, e);
                trivia::lemma_comment_lines_concat(pref(c, pos), verb_extra(c, pos + 1, e));
            },
            _ => {},
        }
    }
}

proof fn lemma_entries_lines(c: PCtx, pos: int, st: Style)
    requires
        prefs_ok(c),
        toks_numbers_valid(c.toks),
    ensures
        p_obj_entries(c, pos, st) matches Ok((es, _, _, _)) ==> forall|i: int|
            0 <= i < es.len() ==> parsed_form(#[trigger] es[i].key) && es[i].key.value is Str && parsed_form(es[i].value),
    decreases c.toks.len() - pos, 1int,
{
    if 0 <= pos < c.toks.len() && !is_tok(c, pos, TokM::RBrace) {
        if let Ok((key, p1, s1)) = p_key(c, pos, st) {
            lemma_pref_ok(c, pos);
            if let Ok((p2, s2)) = p_sep(c, p1, s1) {
                if pos < p2 <= c.toks.len() {
                    lemma_value_lines(c, p2, s2);
                    if let Ok((value, p3, s3)) = p_value(c, p2, s2) {
                        if pos < p3 <= c.toks.len() {
                            let e = EntryM { key, value };
                            assert(parsed_form(e.key) && e.key.value is Str && parsed_form(e.value));
                            if is_tok(c, p3, TokM::Comma) {
                                let s4 = note_commas(s3, true);
                                if !is_tok(c, p3 + 1, TokM::RBrace) {
                                    lemma_entries_lines(c, p3 + 1, s4);
                                    if let Ok((rest, seen, p, s)) = p_obj_entries(c, p3 + 1, s4) {
                                        assert forall|i: int| 0 <= i < rest.len() + 1 implies parsed_form(
                                            #[trigger] (seq![e] + rest)[i].key,
                                        ) && (seq![e] + rest)[i].key.value is Str && parsed_form((seq![e] + rest)[i].value) by {
                                            if i > 0 {
                                                assert((seq![e] + rest)[i] == rest[i - 1]);
                                            }
                                        }
                                    }
                                }
                            } else if !is_tok(c, p3, TokM::RBrace) && (0 <= p3 < c.nl.len() && c.nl[p3]) {
                                let s4 = note_commas(s3, false);
                                lemma_entries_lines(c, p3, s4);
                                if let Ok((rest, seen, p, s)) = p_obj_entries(c, p3, s4) {
                                    assert forall|i: int| 0 <= i < rest.len() + 1 implies parsed_form(
                                        #[trigger] (seq![e] + rest)[i].key,
                                    ) && (seq![e] + rest)[i].key.value is Str && parsed_form((seq![e] + rest)[i].value) by {
                                        if i > 0 {
                                            assert((seq![e] + rest)[i] == rest[i - 1]);
                                        }
                                    }
                                }
                            }
                        }
                    }
                }
            }
        }
    }
}

proof fn lemma_object_lines(c: PCtx, pos: int, st: Style)
    requires
        prefs_ok(c),
        toks_numbers_valid(c.toks),
    ensures
        p_object(c, pos, st) matches Ok((es, tr, _, _)) ==> trivia::comment_lines(tr) && forall|i: int|
            0 <= i < es.len() ==> parsed_form(#[trigger] es[i].key) && es[i].key.value is Str && parsed_form(es[i].value),
    decreases c.toks.len() - pos, 2int,
{
    lemma_entries_lines(c, pos, st);
    if let Ok((entries, seen, p, s)) = p_obj_entries(c, pos, st) {
        lemma_pref_ok(c, p);
    }
}

proof fn lemma_items_lines(c: PCtx, pos: int, st: Style)
    requires
        prefs_ok(c),
        toks_numbers_valid(c.toks),
    ensures
        p_arr_items(c, pos, st) matches Ok((ns, _, _, _)) ==> forall|i: int| 0 <= i < ns.len() ==> parsed_form(#[trigger] ns[i]),
    decreases c.toks.len() - pos, 1int,
{
    if 0 <= pos < c.toks.len() && !is_tok(c, pos, TokM::RBracket) {
        lemma_value_lines(c, pos, st);
        if let Ok((item, p3, s3)) = p_value(c, pos, st) {
            if pos < p3 <= c.toks.len() {
                if is_tok(c, p3, TokM::Comma) {
                    let s4 = note_commas(s3, true);
                    if !is_tok(c, p3 + 1, TokM::RBracket) {
                        lemma_items_lines(c, p3 + 1, s4);
                        if let Ok((rest, seen, p, s)) = p_arr_items(c, p3 + 1, s4) {
                            assert forall|i: int| 0 <= i < rest.len() + 1 implies parsed_form(
                                #[trigger] (seq![item] + rest)[i],
                            ) by {
                                if i > 0 {
                                    assert((seq![item] + rest)[i] == rest[i - 1]);
                                }
                            }
                        }
                    }
                } else if !is_tok(c, p3, TokM::RBracket) && (0 <= p3 < c.nl.len() && c.nl[p3]) {
                    let s4 = note_commas(s3, false);
                    lemma_items_lines(c, p3, s4);
                    if let Ok((rest, seen, p, s)) = p_arr_items(c, p3, s4) {
                        assert forall|i: int| 0 <= i < rest.len() + 1 implies parsed_form(#[trigger] (seq![item] + rest)[i]) by {
                            if i > 0 {
                                assert((seq![item] + rest)[i] == rest[i - 1]);
                            }
                        }
                    }
                }
            }
        }
    }
}

proof fn lemma_array_lines(c: PCtx, pos: int, st: Style)
    requires
        prefs_ok(c),
        toks_numbers_valid(c.toks),
    ensures
        p_array(c, pos, st) matches Ok((ns, tr, _, _)) ==> trivia::comment_lines(tr) && forall|i: int|
            0 <= i < ns.len() ==> parsed_form(#[trigger] ns[i]),
    decreases c.toks.len() - pos, 2int,
{
    lemma_items_lines(c, pos, st);
    if let Ok((items, seen, p, s)) = p_arr_items(c, pos, st) {
        lemma_pref_ok(c, p);
    }
}

proof fn lemma_bare_root_lines(c: PCtx, pos: int, st: Style)
    requires
        prefs_ok(c),
        toks_numbers_valid(c.toks),
    ensures
        p_bare_root(c, pos, st) matches Ok((es, _, _)) ==> forall|i: int|
            0 <= i < es.len() ==> parsed_form(#[trigger] es[i].key) && es[i].key.value is Str && parsed_form(es[i].value),
    decreases c.toks.len() - pos,
{
    if 0 <= pos < c.toks.len() {
        if let Ok((key, p1, s1)) = p_key(c, pos, st) {
            lemma_pref_ok(c, pos);
            if let Ok((p2, s2)) = p_sep(c, p1, s1) {
                lemma_value_lines(c, p2, s2);
                if let Ok((value, p3, s3)) = p_value(c, p2, s2) {
                    let e = EntryM { key, value };
                    if pos < p3 <= c.toks.len() {
                        let next = if is_tok(c, p3, TokM::Comma) { p3 + 1 } else { p3 };
                        let s4 = if is_tok(c, p3, TokM::Comma) { note_commas(s3, true) } else { note_commas(s3, false) };
                        if next < c.toks.len() {
                            lemma_bare_root_lines(c, next, s4);
                            if let Ok((rest, p, s)) = p_bare_root(c, next, s4) {
                                assert forall|i: int| 0 <= i < rest.len() + 1 implies parsed_form(
                                    #[trigger] (seq![e] + rest)[i].key,
                                ) && (seq![e] + rest)[i].key.value is Str && parsed_form((seq![e] + rest)[i].value) by {
                                    if i > 0 {
                                        assert((seq![e] + rest)[i] == rest[i - 1]);
                                    }
                                }
                            }
                        }
                    }
                }
            }
        }
    }
}

/// A parsed document has the parser's form ([`parsed_form`]): every key
/// is a string, every number a valid literal, every trivia slot a run of
/// comment lines; its suffix is a run of comment lines too, a braced root
/// is an array or an object, and a brace-less root has no prefix.
pub proof fn law_parsed_document_form(input: Seq<char>)
    ensures
        parse_spec(input) matches Ok(d) ==> parsed_form(d.root) && trivia::comment_lines(d.suffix) && (!d.bare_root
            ==> (d.root.value is Array || d.root.value is Object)) && (d.bare_root ==> d.root.prefix.len() == 0),
{
    let s = strip_bom(input);
    trivia::lemma_lex_comments(s, 0);
    crate::number::lemma_lex_numbers_valid(s, 0);
    if let Ok(items) = lex_spec(s) {
        trivia::lemma_resolve_comment_lines(items);
        lemma_real_toks_numbers(items);
        let c = ctx_of(s, items);
        assert(prefs_ok(c));
        let n = c.toks.len() as int;
        lemma_pref_ok(c, 0);
        lemma_pref_ok(c, n);
        assert(trivia::comment_lines(Seq::<char>::empty()));
        if let Ok(d) = p_document(c) {
            if n > 0 {
                match c.toks[0] {
                    TokM::LBrace => lemma_object_lines(c, 1, empty_style()),
                    TokM::LBracket => lemma_array_lines(c, 1, empty_style()),
                    _ => lemma_bare_root_lines(c, 0, empty_style()),
                }
            }
            assert(parsed_form(d.root));
        }
    }
}

/// Every trivia slot of a parsed document -- each node's prefix, each
/// container's trailing trivia, the document's suffix -- holds only
/// whitespace and `#` comments: the parser never files a token's text as
/// trivia.
pub proof fn law_parsed_trivia_is_valid(input: Seq<char>)
    ensures
        parse_spec(input) matches Ok(d) ==> doc_trivia_valid(d),
{
    law_parsed_document_form(input);
    if let Ok(d) = parse_spec(input) {
        lemma_lines_valid(d.root);
        trivia::lemma_comment_lines_valid_prefix(d.suffix);
    }
}

// ---------------------------------------------------------------------
// What the parser never sets.

proof fn lemma_value_indent(c: PCtx, pos: int, st: Style)
    requires
        st.indent is None,
    ensures
        p_value(c, pos, st) matches Ok((_, _, s)) ==> s.indent is None,
    decreases c.toks.len() - pos, 0int,
{
    if 0 <= pos < c.toks.len() {
        match c.toks[pos] {
            TokM::LBrace => lemma_object_indent(c, pos + 1, st),
            TokM::LBracket => lemma_array_indent(c, pos + 1, st),
            _ => {},
        }
    }
}

proof fn lemma_entries_indent(c: PCtx, pos: int, st: Style)
    requires
        st.indent is None,
    ensures
        p_obj_entries(c, pos, st) matches Ok((_, _, _, s)) ==> s.indent is None,
    decreases c.toks.len() - pos, 1int,
{
    if 0 <= pos < c.toks.len() && !is_tok(c, pos, TokM::RBrace) {
        if let Ok((key, p1, s1)) = p_key(c, pos, st) {
            if let Ok((p2, s2)) = p_sep(c, p1, s1) {
                if pos < p2 <= c.toks.len() {
                    lemma_value_indent(c, p2, s2);
                    if let Ok((value, p3, s3)) = p_value(c, p2, s2) {
                        if pos < p3 <= c.toks.len() {
                            if is_tok(c, p3, TokM::Comma) {
                                if !is_tok(c, p3 + 1, TokM::RBrace) {
                                    lemma_entries_indent(c, p3 + 1, note_commas(s3, true));
                                }
                            } else if !is_tok(c, p3, TokM::RBrace) {
                                lemma_entries_indent(c, p3, note_commas(s3, false));
                            }
                        }
                    }
                }
            }
        }
    }
}

proof fn lemma_object_indent(c: PCtx, pos: int, st: Style)
    requires
        st.indent is None,
    ensures
        p_object(c, pos, st) matches Ok((_, _, _, s)) ==> s.indent is None,
    decreases c.toks.len() - pos, 2int,
{
    lemma_entries_indent(c, pos, st);
}

proof fn lemma_items_indent(c: PCtx, pos: int, st: Style)
    requires
        st.indent is None,
    ensures
        p_arr_items(c, pos, st) matches Ok((_, _, _, s)) ==> s.indent is None,
    decreases c.toks.len() - pos, 1int,
{
    if 0 <= pos < c.toks.len() && !is_tok(c, pos, TokM::RBracket) {
        lemma_value_indent(c, pos, st);
        if let Ok((item, p3, s3)) = p_value(c, pos, st) {
            if pos < p3 <= c.toks.len() {
                if is_tok(c, p3, TokM::Comma) {
                    if !is_tok(c, p3 + 1, TokM::RBracket) {
                        lemma_items_indent(c, p3 + 1, note_commas(s3, true));
                    }
                } else if !is_tok(c, p3, TokM::RBracket) {
                    lemma_items_indent(c, p3, note_commas(s3, false));
                }
            }
        }
    }
}

proof fn lemma_array_indent(c: PCtx, pos: int, st: Style)
    requires
        st.indent is None,
    ensures
        p_array(c, pos, st) matches Ok((_, _, _, s)) ==> s.indent is None,
    decreases c.toks.len() - pos, 2int,
{
    lemma_items_indent(c, pos, st);
}

proof fn lemma_bare_root_indent(c: PCtx, pos: int, st: Style)
    requires
        st.indent is None,
    ensures
        p_bare_root(c, pos, st) matches Ok((_, _, s)) ==> s.indent is None,
    decreases c.toks.len() - pos,
{
    if 0 <= pos < c.toks.len() {
        if let Ok((key, p1, s1)) = p_key(c, pos, st) {
            if let Ok((p2, s2)) = p_sep(c, p1, s1) {
                lemma_value_indent(c, p2, s2);
                if let Ok((value, p3, s3)) = p_value(c, p2, s2) {
                    if pos < p3 < c.toks.len() {
                        if is_tok(c, p3, TokM::Comma) {
                            lemma_bare_root_indent(c, p3 + 1, note_commas(s3, true));
                        } else {
                            lemma_bare_root_indent(c, p3, note_commas(s3, false));
                        }
                    }
                }
            }
        }
    }
}

/// The parser never sets the indentation (it has no reliable first-match
/// source): a parsed document's style leaves it to the default. And a
/// brace-less root is always an object -- CSON has no bare array root.
pub proof fn law_parse_leaves_indent_and_bare_roots_are_objects(input: Seq<char>)
    ensures
        parse_spec(input) matches Ok(d) ==> d.style.indent is None,
        parse_spec(input) matches Ok(d) ==> (d.bare_root ==> d.root.value is Object),
{
    let s = strip_bom(input);
    if let Ok(items) = lex_spec(s) {
        let c = ctx_of(s, items);
        let n = c.toks.len() as int;
        if n > 0 {
            match c.toks[0] {
                TokM::LBrace => lemma_object_indent(c, 1, empty_style()),
                TokM::LBracket => lemma_array_indent(c, 1, empty_style()),
                _ => lemma_bare_root_indent(c, 0, empty_style()),
            }
        }
    }
}

} // verus!
