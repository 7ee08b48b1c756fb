//! Tokenizer for CSON source text.
//!
//! Produces a flat, source-ordered stream of [`Item`]s: real (meaningful)
//! tokens plus the two trivia atoms the line-anchor pass in
//! [`crate::trivia`] needs (`Comment`, `Newline`). Plain whitespace is
//! consumed silently and never represented -- the writer regenerates all
//! indentation from `Style`, so no information is lost by dropping it.
//!
//! Verbatim-string fragments (`|...`) are lexed as a single token that
//! swallows the rest of the line, `#` included, so the comment-reattachment
//! pass never has to special-case verbatim content.
//!
//! The lexer works on the input's characters; every position (in
//! [`Span`] and in errors) is a character index.

use vstd::prelude::*;
use crate::model::{line_col, err_matches, ErrM};
use crate::text::{push_char, string_of};
use crate::ParseError;

verus! {

/// A meaningful token.
#[derive(Debug, Clone, PartialEq, Eq)]
pub enum RealTok {
    LBrace,
    RBrace,
    LBracket,
    RBracket,
    Colon,
    Equals,
    Comma,
    /// The literal's text.
    Number(String),
    /// Decoded string content (escapes already resolved).
    Str(String, QuoteKind),
    /// A run of `id-start id-end*` characters; the parser decides whether
    /// this is a keyword (`true`/`false`/`null`), a bare key, or an error.
    Bare(String),
    /// Raw text after `|` up to (excluding) the line break. Escapes are
    /// *not* processed and `#` is *not* a comment start in here.
    VerbatimFragment(String),
}

/// Which quote character delimited a string literal.
#[derive(Debug, Clone, Copy, PartialEq, Eq, Structural)]
pub enum QuoteKind {
    /// `"..."`.
    Double,
    /// `'...'`.
    Single,
}

/// Character range `[start, end)` of a token in the source.
#[derive(Debug, Clone, Copy, PartialEq, Eq, Structural)]
pub struct Span {
    pub start: usize,
    pub end: usize,
}

/// One lexer output item.
#[derive(Debug, Clone, PartialEq, Eq)]
pub enum Item {
    Real(RealTok, Span),
    /// Full comment text including the leading `#`, excluding the
    /// terminating CR/LF.
    Comment(String),
    /// One logical line break: a lone CR, a lone LF, or a CRLF pair.
    Newline,
}

/// Model of [`RealTok`].
pub enum TokM {
    LBrace,
    RBrace,
    LBracket,
    RBracket,
    Colon,
    Equals,
    Comma,
    Number(Seq<char>),
    Str(Seq<char>, QuoteKind),
    Bare(Seq<char>),
    Verbatim(Seq<char>),
}

/// Model of [`Item`]: a real token with its character span, a comment,
/// or a line break.
pub enum ItemM {
    Real(TokM, int, int),
    Comment(Seq<char>),
    Newline,
}

impl View for RealTok {
    type V = TokM;

    open spec fn view(&self) -> TokM {
        match self {
            RealTok::LBrace => TokM::LBrace,
            RealTok::RBrace => TokM::RBrace,
            RealTok::LBracket => TokM::LBracket,
            RealTok::RBracket => TokM::RBracket,
            RealTok::Colon => TokM::Colon,
            RealTok::Equals => TokM::Equals,
            RealTok::Comma => TokM::Comma,
            RealTok::Number(t) => TokM::Number(t@),
            RealTok::Str(t, q) => TokM::Str(t@, *q),
            RealTok::Bare(t) => TokM::Bare(t@),
            RealTok::VerbatimFragment(t) => TokM::Verbatim(t@),
        }
    }
}

impl View for Item {
    type V = ItemM;

    open spec fn view(&self) -> ItemM {
        match self {
            Item::Real(t, sp) => ItemM::Real(t@, sp.start as int, sp.end as int),
            Item::Comment(t) => ItemM::Comment(t@),
            Item::Newline => ItemM::Newline,
        }
    }
}

/// The models of a sequence of items.
pub open spec fn items_view(v: Seq<Item>) -> Seq<ItemM> {
    v.map_values(|it: Item| it@)
}

// ---------------------------------------------------------------------
// Specification of the token grammar.

/// `s[i]`, or NUL past either end.
pub open spec fn at(s: Seq<char>, i: int) -> char {
    if 0 <= i < s.len() {
        s[i]
    } else {
        '\0'
    }
}

pub open spec fn is_digit(c: char) -> bool {
    '0' <= c && c <= '9'
}

pub open spec fn is_line_break(c: char) -> bool {
    c == '\n' || c == '\r'
}

/// `id-start` from the CSON grammar: the union of ECMAScript-5
/// identifier start characters and XML 1.0 `NameStartChar`, minus `:`,
/// plus `$`/`-`.
pub open spec fn is_id_start_spec(c: char) -> bool {
    ||| c == '$' || c == '-' || c == '_'
    ||| ('A' <= c && c <= 'Z')
    ||| ('a' <= c && c <= 'z')
    ||| c == '\u{AA}' || c == '\u{B5}' || c == '\u{BA}'
    ||| ('\u{C0}' <= c && c <= '\u{D6}')
    ||| ('\u{D8}' <= c && c <= '\u{F6}')
    ||| ('\u{F8}' <= c && c <= '\u{2FF}')
    ||| ('\u{370}' <= c && c <= '\u{37D}')
    ||| ('\u{37F}' <= c && c <= '\u{1FFF}')
    ||| ('\u{200C}' <= c && c <= '\u{200D}')
    ||| ('\u{2070}' <= c && c <= '\u{218F}')
    ||| ('\u{2C00}' <= c && c <= '\u{2FEF}')
    ||| ('\u{3001}' <= c && c <= '\u{D7FF}')
    ||| ('\u{F900}' <= c && c <= '\u{FDCF}')
    ||| ('\u{FDF0}' <= c && c <= '\u{FFFD}')
    ||| ('\u{10000}' <= c && c <= '\u{EFFFF}')
}

/// `id-end`: `id-start` plus `.`, digits, U+00B7, the combining
/// diacriticals U+0300..U+036F and U+203F..U+2040.
pub open spec fn is_id_end_spec(c: char) -> bool {
    ||| is_id_start_spec(c)
    ||| c == '.'
    ||| is_digit(c)
    ||| c == '\u{B7}'
    ||| ('\u{300}' <= c && c <= '\u{36F}')
    ||| ('\u{203F}' <= c && c <= '\u{2040}')
}

/// First position `>= i` that is not a digit.
pub open spec fn digits_end(s: Seq<char>, i: int) -> int
    decreases s.len() - i,
{
    if 0 <= i < s.len() && is_digit(s[i]) {
        digits_end(s, i + 1)
    } else {
        i
    }
}

/// First position `>= i` holding a line break, or the end of `s`.
pub open spec fn line_end(s: Seq<char>, i: int) -> int
    decreases s.len() - i,
{
    if 0 <= i < s.len() && !is_line_break(s[i]) {
        line_end(s, i + 1)
    } else {
        i
    }
}

/// First position `>= i` that is not an `id-end` character.
pub open spec fn bare_end(s: Seq<char>, i: int) -> int
    decreases s.len() - i,
{
    if 0 <= i < s.len() && is_id_end_spec(s[i]) {
        bare_end(s, i + 1)
    } else {
        i
    }
}

pub open spec fn err<T>(pos: int, msg: Seq<char>) -> Result<T, ErrM> {
    Err(ErrM { pos, msg })
}

/// End of the number literal starting at `start`:
/// `-? (0 | [1-9][0-9]*) (. [0-9]+)? ([eE] [+-]? [0-9]+)?`.
pub open spec fn number_end(s: Seq<char>, start: int) -> Result<int, ErrM> {
    let i0 = if at(s, start) == '-' { start + 1 } else { start };
    if at(s, i0) != '0' && !('1' <= at(s, i0) && at(s, i0) <= '9') {
        err(start, "invalid number literal"@)
    } else {
        let i1 = if at(s, i0) == '0' { i0 + 1 } else { digits_end(s, i0 + 1) };
        if at(s, i1) == '.' && !is_digit(at(s, i1 + 1)) {
            err(i1, "expected digit after decimal point"@)
        } else {
            let i2 = if at(s, i1) == '.' { digits_end(s, i1 + 1) } else { i1 };
            if at(s, i2) == 'e' || at(s, i2) == 'E' {
                let j = if at(s, i2 + 1) == '+' || at(s, i2 + 1) == '-' { i2 + 2 } else { i2 + 1 };
                if !is_digit(at(s, j)) {
                    err(i2, "expected digit in exponent"@)
                } else {
                    Ok(digits_end(s, j))
                }
            } else {
                Ok(i2)
            }
        }
    }
}

/// Scans a string body from `i` to its closing `q`, stepping over every
/// `\` escape pair: the stop position and whether any `\` was seen.
pub open spec fn string_scan(s: Seq<char>, i: int, q: char, bs: bool) -> (int, bool)
    decreases s.len() + 2 - i,
{
    if i < 0 || i >= s.len() || s[i] == q {
        (i, bs)
    } else if s[i] == '\\' {
        string_scan(s, i + 2, q, true)
    } else {
        string_scan(s, i + 1, q, bs)
    }
}

/// UTF-8 encoded length of `c`.
pub open spec fn utf8_len(c: char) -> int {
    if (c as u32) < 0x80 {
        1
    } else if (c as u32) < 0x800 {
        2
    } else if (c as u32) < 0x10000 {
        3
    } else {
        4
    }
}

/// UTF-8 encoded length of `t`.
pub open spec fn utf8_len_seq(t: Seq<char>) -> int
    decreases t.len(),
{
    if t.len() == 0 {
        0
    } else {
        utf8_len_seq(t.drop_last()) + utf8_len(t.last())
    }
}

pub open spec fn is_hex(c: char) -> bool {
    ||| is_digit(c)
    ||| ('a' <= c && c <= 'f')
    ||| ('A' <= c && c <= 'F')
}

pub open spec fn hex_val(c: char) -> int {
    if is_digit(c) {
        c as int - '0' as int
    } else if 'a' <= c && c <= 'f' {
        c as int - 'a' as int + 10
    } else {
        c as int - 'A' as int + 10
    }
}

/// `u32::from_str_radix(text, 16)` on four ASCII characters: four hex
/// digits, or `+` and three hex digits.
pub open spec fn parse_hex4(a: char, b: char, c: char, d: char) -> Option<int> {
    if a == '+' {
        if is_hex(b) && is_hex(c) && is_hex(d) {
            Some(hex_val(b) * 256 + hex_val(c) * 16 + hex_val(d))
        } else {
            None
        }
    } else if is_hex(a) && is_hex(b) && is_hex(c) && is_hex(d) {
        Some(hex_val(a) * 4096 + hex_val(b) * 256 + hex_val(c) * 16 + hex_val(d))
    } else {
        None
    }
}

pub open spec fn is_ascii_char(c: char) -> bool {
    (c as u32) < 0x80
}

/// The four-digit hex escape payload at `raw[at..]`: its value, or an
/// error at `err_pos` when fewer than four bytes of input remain
/// ("truncated") or they do not spell a hex number ("invalid").
pub open spec fn hex4(raw: Seq<char>, at_: int, err_pos: int) -> Result<int, ErrM> {
    if at_ + 4 <= raw.len() && is_ascii_char(raw[at_]) && is_ascii_char(raw[at_ + 1])
        && is_ascii_char(raw[at_ + 2]) && is_ascii_char(raw[at_ + 3]) {
        match parse_hex4(raw[at_], raw[at_ + 1], raw[at_ + 2], raw[at_ + 3]) {
            Some(v) => Ok(v),
            None => err(err_pos, "invalid unicode escape"@),
        }
    } else if utf8_len_seq(raw.subrange(at_, if at_ + 4 <= raw.len() { at_ + 4 } else { raw.len() as int })) >= 4 {
        err(err_pos, "invalid unicode escape"@)
    } else {
        err(err_pos, "truncated unicode escape"@)
    }
}

/// A valid Unicode scalar value.
pub open spec fn is_scalar(cp: int) -> bool {
    0 <= cp <= 0x10FFFF && !(0xD800 <= cp <= 0xDFFF)
}

/// The character a single-character escape `\e` stands for.
pub open spec fn simple_escape(e: char) -> Option<char> {
    if e == '\'' {
        Some('\'')
    } else if e == '"' {
        Some('"')
    } else if e == '\\' {
        Some('\\')
    } else if e == '/' {
        Some('/')
    } else if e == 'b' {
        Some('\u{8}')
    } else if e == 'f' {
        Some('\u{c}')
    } else if e == 'n' {
        Some('\n')
    } else if e == 'r' {
        Some('\r')
    } else if e == 't' {
        Some('\t')
    } else {
        None
    }
}

/// The first UTF-8 byte of `c`, read back as a (Latin-1) character.
pub open spec fn lead_byte_char(c: char) -> char {
    let v = c as u32;
    if v < 0x80 {
        c
    } else if v < 0x800 {
        ((0xC0 | (v >> 6u32)) as u8) as char
    } else if v < 0x10000 {
        ((0xE0 | (v >> 12u32)) as u8) as char
    } else {
        ((0xF0 | (v >> 18u32)) as u8) as char
    }
}

pub open spec fn invalid_escape_msg(e: char) -> Seq<char> {
    "invalid escape '\\"@ + seq![lead_byte_char(e)] + "'"@
}

/// Prepends `pre` to a successful result; passes an error through.
pub open spec fn then_seq<T>(pre: Seq<T>, r: Result<Seq<T>, ErrM>) -> Result<Seq<T>, ErrM> {
    match r {
        Ok(rest) => Ok(pre + rest),
        Err(e) => Err(e),
    }
}

/// The code point decoded at `raw[i..]` after a `\u` escape begins at
/// `i` (`raw[i] == '\\'`, `raw[i + 1] == 'u'`), with the position
/// after it.
pub open spec fn unicode_escape(raw: Seq<char>, off: int, i: int) -> Result<(char, int), ErrM> {
    match hex4(raw, i + 2, off + i) {
        Err(e) => Err(e),
        Ok(hi) => {
            let j = i + 6;
            if 0xD800 <= hi <= 0xDBFF {
                if at(raw, j) == '\\' && at(raw, j + 1) == 'u' {
                    match hex4(raw, j + 2, off + j) {
                        Err(e) => Err(e),
                        Ok(lo) => {
                            if 0xDC00 <= lo <= 0xDFFF {
                                let cp = 0x10000 + (hi - 0xD800) * 1024 + (lo - 0xDC00);
                                if is_scalar(cp) {
                                    Ok((cp as char, j + 6))
                                } else {
                                    err(off + j + 6, "invalid unicode escape"@)
                                }
                            } else {
                                err(off + j, "unpaired surrogate"@)
                            }
                        },
                    }
                } else {
                    err(off + j, "unpaired surrogate"@)
                }
            } else if is_scalar(hi) {
                Ok((hi as char, j))
            } else {
                err(off + j, "invalid unicode escape"@)
            }
        },
    }
}

/// The one character the escape unit at `raw[i..]` decodes to (a plain
/// character, a `\x` escape or a `\uXXXX` escape, possibly a surrogate
/// pair), with the position after the unit.
pub open spec fn escape_unit(raw: Seq<char>, off: int, i: int) -> Result<(char, int), ErrM> {
    if raw[i] != '\\' {
        Ok((raw[i], i + 1))
    } else if i + 1 >= raw.len() {
        err(off + i, "dangling escape"@)
    } else if simple_escape(raw[i + 1]) is Some {
        Ok((simple_escape(raw[i + 1])->0, i + 2))
    } else if raw[i + 1] == 'u' {
        unicode_escape(raw, off, i)
    } else {
        err(off + i, invalid_escape_msg(raw[i + 1]))
    }
}

/// Decodes the escapes of `raw[i..]`; `off` is `raw`'s position in the
/// source, for error positions.
pub open spec fn unescape_from(raw: Seq<char>, off: int, i: int) -> Result<Seq<char>, ErrM>
    decreases raw.len() - i,
{
    if i < 0 || i >= raw.len() {
        Ok(Seq::empty())
    } else {
        match escape_unit(raw, off, i) {
            Err(e) => Err(e),
            Ok((c, j)) => if i < j <= raw.len() {
                then_seq(seq![c], unescape_from(raw, off, j))
            } else {
                Ok(Seq::empty())
            },
        }
    }
}

/// The string literal opening with quote `q` at `start`: its decoded
/// content and the position after its closing quote.
pub open spec fn lex_string_spec(s: Seq<char>, start: int, q: char) -> Result<(Seq<char>, int), ErrM> {
    let (e, bs) = string_scan(s, start + 1, q, false);
    if e >= s.len() {
        err(start, "unterminated string literal"@)
    } else {
        let raw = s.subrange(start + 1, e);
        if !bs {
            Ok((raw, e + 1))
        } else {
            match unescape_from(raw, start + 1, 0) {
                Ok(t) => Ok((t, e + 1)),
                Err(x) => Err(x),
            }
        }
    }
}

/// The token for a one-character punctuator.
pub open spec fn punct_tok(c: char) -> Option<TokM> {
    if c == '{' {
        Some(TokM::LBrace)
    } else if c == '}' {
        Some(TokM::RBrace)
    } else if c == '[' {
        Some(TokM::LBracket)
    } else if c == ']' {
        Some(TokM::RBracket)
    } else if c == ':' {
        Some(TokM::Colon)
    } else if c == '=' {
        Some(TokM::Equals)
    } else if c == ',' {
        Some(TokM::Comma)
    } else {
        None
    }
}

/// Text of the Debug rendering of a character (`'x'`, `'\n'`, ...),
/// as produced by `format!("{:?}", c)`.
pub uninterp spec fn char_debug_text(c: char) -> Seq<char>;

/// One lexing step at `s[i]` (`i` in bounds): the item it produces, if
/// any (plain whitespace produces none), and the position after it.
pub open spec fn lex_step(s: Seq<char>, i: int) -> Result<(Option<ItemM>, int), ErrM> {
    let c = s[i];
    if c == ' ' || c == '\t' {
        Ok((None, i + 1))
    } else if c == '\r' {
        Ok((Some(ItemM::Newline), if at(s, i + 1) == '\n' { i + 2 } else { i + 1 }))
    } else if c == '\n' {
        Ok((Some(ItemM::Newline), i + 1))
    } else if c == '#' {
        let e = line_end(s, i + 1);
        Ok((Some(ItemM::Comment(s.subrange(i, e))), e))
    } else if punct_tok(c) is Some {
        Ok((Some(ItemM::Real(punct_tok(c)->0, i, i + 1)), i + 1))
    } else if c == '|' {
        let e = line_end(s, i + 1);
        Ok((Some(ItemM::Real(TokM::Verbatim(s.subrange(i + 1, e)), i, e)), e))
    } else if c == '"' || c == '\'' {
        let kind = if c == '"' { QuoteKind::Double } else { QuoteKind::Single };
        match lex_string_spec(s, i, c) {
            Err(x) => Err(x),
            Ok((text, e)) => Ok((Some(ItemM::Real(TokM::Str(text, kind), i, e)), e)),
        }
    } else if c == '-' && !is_digit(at(s, i + 1)) {
        let e = bare_end(s, i + 1);
        Ok((Some(ItemM::Real(TokM::Bare(s.subrange(i, e)), i, e)), e))
    } else if c == '-' || is_digit(c) {
        match number_end(s, i) {
            Err(x) => Err(x),
            Ok(e) => Ok((Some(ItemM::Real(TokM::Number(s.subrange(i, e)), i, e)), e)),
        }
    } else if is_id_start_spec(c) {
        let e = bare_end(s, i + 1);
        Ok((Some(ItemM::Real(TokM::Bare(s.subrange(i, e)), i, e)), e))
    } else {
        err(i, "unexpected character "@ + char_debug_text(c))
    }
}

pub open spec fn opt_seq<T>(o: Option<T>) -> Seq<T> {
    match o {
        Some(x) => seq![x],
        None => Seq::empty(),
    }
}

/// The items lexed from `s[i..]`.
pub open spec fn lex_from(s: Seq<char>, i: int) -> Result<Seq<ItemM>, ErrM>
    decreases s.len() - i,
{
    if i < 0 || i >= s.len() {
        Ok(Seq::empty())
    } else {
        match lex_step(s, i) {
            Err(x) => Err(x),
            Ok((it, j)) => if i < j <= s.len() {
                then_seq(opt_seq(it), lex_from(s, j))
            } else {
                Ok(Seq::empty())
            },
        }
    }
}

/// The items of the whole input `s`.
pub open spec fn lex_spec(s: Seq<char>) -> Result<Seq<ItemM>, ErrM> {
    lex_from(s, 0)
}

// ---------------------------------------------------------------------
// Lemmas.

/// Each lexed item consumes at least one character.
pub proof fn lemma_lex_len(s: Seq<char>, i: int)
    requires
        0 <= i <= s.len(),
    ensures
        lex_from(s, i) matches Ok(items) ==> items.len() <= s.len() - i,
    decreases s.len() - i,
{
    if i < s.len() {
        match lex_step(s, i) {
            Err(_) => {},
            Ok((it, j)) => if i < j <= s.len() {
                lemma_lex_len(s, j);
            },
        }
    }
}

pub proof fn lemma_digits_end(s: Seq<char>, i: int)
    requires
        0 <= i <= s.len(),
    ensures
        i <= digits_end(s, i) <= s.len(),
        forall|k: int| i <= k < digits_end(s, i) ==> is_digit(#[trigger] s[k]),
    decreases s.len() - i,
{
    if i < s.len() && is_digit(s[i]) {
        lemma_digits_end(s, i + 1);
    }
}

pub proof fn lemma_line_end(s: Seq<char>, i: int)
    requires
        0 <= i <= s.len(),
    ensures
        i <= line_end(s, i) <= s.len(),
        forall|k: int| i <= k < line_end(s, i) ==> !is_line_break(#[trigger] s[k]),
    decreases s.len() - i,
{
    if i < s.len() && !is_line_break(s[i]) {
        lemma_line_end(s, i + 1);
    }
}

pub proof fn lemma_bare_end(s: Seq<char>, i: int)
    requires
        0 <= i <= s.len(),
    ensures
        i <= bare_end(s, i) <= s.len(),
    decreases s.len() - i,
{
    if i < s.len() && is_id_end_spec(s[i]) {
        lemma_bare_end(s, i + 1);
    }
}

pub proof fn lemma_string_scan(s: Seq<char>, i: int, q: char, bs: bool)
    requires
        0 <= i,
    ensures
        string_scan(s, i, q, bs).0 >= i,
        string_scan(s, i, q, bs).0 < s.len() ==> s[string_scan(s, i, q, bs).0] == q,
        bs ==> string_scan(s, i, q, bs).1,
    decreases s.len() + 2 - i,
{
    if i >= s.len() || s[i] == q {
    } else if s[i] == '\\' {
        lemma_string_scan(s, i + 2, q, true);
    } else {
        lemma_string_scan(s, i + 1, q, bs);
    }
}

pub proof fn lemma_number_end(s: Seq<char>, start: int)
    requires
        0 <= start < s.len(),
    ensures
        number_end(s, start) matches Ok(e) ==> start < e <= s.len(),
{
    let i0 = if at(s, start) == '-' { start + 1 } else { start };
    if at(s, i0) == '0' || ('1' <= at(s, i0) && at(s, i0) <= '9') {
        let i1 = if at(s, i0) == '0' { i0 + 1 } else { digits_end(s, i0 + 1) };
        if at(s, i0) != '0' {
            lemma_digits_end(s, i0 + 1);
        }
        if at(s, i1) == '.' && is_digit(at(s, i1 + 1)) {
            lemma_digits_end(s, i1 + 1);
        }
        let i2 = if at(s, i1) == '.' { digits_end(s, i1 + 1) } else { i1 };
        if at(s, i2) == 'e' || at(s, i2) == 'E' {
            let j = if at(s, i2 + 1) == '+' || at(s, i2 + 1) == '-' { i2 + 2 } else { i2 + 1 };
            if is_digit(at(s, j)) {
                lemma_digits_end(s, j);
            }
        }
    }
}


// ---------------------------------------------------------------------
// Executable lexer.

/// The `Debug` rendering of `c` (`<char as core::fmt::Debug>::fmt`, through
/// `format!`): a quoted, escaped character such as `'@'`. Its exact text is
/// left to that function; the contract only names it.
#[verifier::external_body]
fn char_debug(c: char) -> (r: String)
    ensures
        r@ == char_debug_text(c),
{
    format!("{:?}", c)
}

/// The "unexpected character" message for `c`.
fn unexpected_char_message(c: char) -> (r: String)
    ensures
        r@ == "unexpected character "@ + char_debug_text(c),
{
    let mut m = String::from_str("unexpected character ");
    let d = char_debug(c);
    m.append(d.as_str());
    proof {
        reveal_strlit("unexpected character ");
    }
    m
}

/// `char::from_u32`: the character with code point `cp`, or `None` where
/// `cp` is a surrogate or beyond `0x10FFFF` (not a Unicode scalar value),
/// as its documentation states.
#[verifier::external_body]
fn char_from_u32(cp: u32) -> (r: Option<char>)
    ensures
        r == (if is_scalar(cp as int) { Some(cp as char) } else { None::<char> }),
{
    char::from_u32(cp)
}

/// Builds the error for character position `byte_pos` of `input` (past
/// the end counts as the end): 1-indexed line and column.
pub fn err_at(input: &Vec<char>, pos: usize, message: String) -> (r: ParseError)
    requires
        input@.len() < usize::MAX,
    ensures
        r.message@ == message@,
        (r.line as int, r.column as int) == line_col(input@, pos as int),
{
    let n = if pos < input.len() { pos } else { input.len() };
    let mut line: usize = 1;
    let mut col: usize = 1;
    let mut k: usize = 0;
    while k < n
        invariant
            n <= input@.len() < usize::MAX,
            k <= n,
            (line as int, col as int) == line_col(input@, k as int),
            line >= 1,
            col >= 1,
            line + col <= k + 2,
        decreases n - k,
    {
        if input[k] == '\n' {
            line += 1;
            col = 1;
        } else {
            col += 1;
        }
        k += 1;
    }
    proof {
        if pos as int > input@.len() {
            assert(line_col(input@, pos as int) == line_col(input@, input@.len() as int));
        }
    }
    ParseError { message, line, column: col }
}

/// Same as [`err_at`], for callers outside the lexer.
pub(crate) fn error_at(input: &Vec<char>, pos: usize, message: String) -> (r: ParseError)
    requires
        input@.len() < usize::MAX,
    ensures
        r.message@ == message@,
        (r.line as int, r.column as int) == line_col(input@, pos as int),
{
    err_at(input, pos, message)
}

fn at_char(s: &Vec<char>, i: usize) -> (r: char)
    ensures
        r == at(s@, i as int),
{
    if i < s.len() {
        s[i]
    } else {
        '\0'
    }
}

pub(crate) fn is_digit_exec(c: char) -> (r: bool)
    ensures
        r == is_digit(c),
{
    '0' <= c && c <= '9'
}

/// Whether `c` may start a bare key (`id-start` in the CSON grammar).
/// Hard-coded rather than derived from a Unicode table, since it must
/// track a fixed spec version, not "current Unicode".
pub fn is_id_start(c: char) -> (r: bool)
    ensures
        r == is_id_start_spec(c),
{
    matches!(c,
        '$' | '-' | 'A'..='Z' | '_' | 'a'..='z'
        | '\u{AA}' | '\u{B5}' | '\u{BA}'
        | '\u{C0}'..='\u{D6}' | '\u{D8}'..='\u{F6}' | '\u{F8}'..='\u{2FF}'
        | '\u{370}'..='\u{37D}' | '\u{37F}'..='\u{1FFF}'
        | '\u{200C}'..='\u{200D}' | '\u{2070}'..='\u{218F}'
        | '\u{2C00}'..='\u{2FEF}' | '\u{3001}'..='\u{D7FF}'
        | '\u{F900}'..='\u{FDCF}' | '\u{FDF0}'..='\u{FFFD}'
        | '\u{10000}'..='\u{EFFFF}'
    )
}

/// Whether `c` may continue a bare key (`id-end`).
pub fn is_id_end(c: char) -> (r: bool)
    ensures
        r == is_id_end_spec(c),
{
    is_id_start(c) || matches!(c,
        '.' | '0'..='9' | '\u{B7}' | '\u{300}'..='\u{36F}' | '\u{203F}'..='\u{2040}'
    )
}

pub(crate) fn digits_end_exec(s: &Vec<char>, i: usize) -> (r: usize)
    requires
        i <= s@.len(),
    ensures
        r as int == digits_end(s@, i as int),
{
    let mut j = i;
    while j < s.len() && is_digit_exec(s[j])
        invariant
            i <= j <= s@.len(),
            digits_end(s@, j as int) == digits_end(s@, i as int),
        decreases s@.len() - j,
    {
        j += 1;
    }
    j
}

fn line_end_exec(s: &Vec<char>, i: usize) -> (r: usize)
    requires
        i <= s@.len(),
    ensures
        r as int == line_end(s@, i as int),
{
    let mut j = i;
    while j < s.len() && s[j] != '\n' && s[j] != '\r'
        invariant
            i <= j <= s@.len(),
            line_end(s@, j as int) == line_end(s@, i as int),
        decreases s@.len() - j,
    {
        j += 1;
    }
    j
}

/// End of the bare word whose `id-end` characters start at `i` (its
/// `id-start` character was already checked by the caller).
fn lex_bare(s: &Vec<char>, i: usize) -> (r: usize)
    requires
        i <= s@.len(),
    ensures
        r as int == bare_end(s@, i as int),
{
    let mut j = i;
    while j < s.len() && is_id_end(s[j])
        invariant
            i <= j <= s@.len(),
            bare_end(s@, j as int) == bare_end(s@, i as int),
        decreases s@.len() - j,
    {
        j += 1;
    }
    j
}

/// Does the result of an executable step agree with its specification?
pub open spec fn agrees<T, U>(r: Result<T, ParseError>, m: Result<U, ErrM>, s: Seq<char>, f: spec_fn(T, U) -> bool) -> bool {
    match (r, m) {
        (Ok(a), Ok(b)) => f(a, b),
        (Err(e), Err(em)) => err_matches(e, s, em),
        _ => false,
    }
}

/// The end of the number literal starting at `start`.
fn lex_number(input: &Vec<char>, start: usize) -> (r: Result<usize, ParseError>)
    requires
        start < input@.len() < usize::MAX,
    ensures
        agrees(r, number_end(input@, start as int), input@, |a: usize, b: int| a as int == b),
{
    let mut i = start;
    if at_char(input, i) == '-' {
        i += 1;
    }
    let c0 = at_char(input, i);
    if c0 == '0' {
        i += 1;
    } else if '1' <= c0 && c0 <= '9' {
        proof { lemma_digits_end(input@, i + 1); }
        i = digits_end_exec(input, i + 1);
    } else {
        return Err(err_at(input, start, String::from_str("invalid number literal")));
    }
    if at_char(input, i) == '.' {
        if !is_digit_exec(at_char(input, i + 1)) {
            return Err(err_at(input, i, String::from_str("expected digit after decimal point")));
        }
        proof { lemma_digits_end(input@, i + 1); }
        i = digits_end_exec(input, i + 1);
    }
    let c2 = at_char(input, i);
    if c2 == 'e' || c2 == 'E' {
        let mut j = i + 1;
        let c3 = at_char(input, j);
        if c3 == '+' || c3 == '-' {
            j += 1;
        }
        if !is_digit_exec(at_char(input, j)) {
            return Err(err_at(input, i, String::from_str("expected digit in exponent")));
        }
        proof { lemma_digits_end(input@, j as int); }
        i = digits_end_exec(input, j);
    }
    Ok(i)
}


/// The exact UTF-8 length of `c`.
fn utf8_len_exec(c: char) -> (r: usize)
    ensures
        r as int == utf8_len(c),
{
    let v = c as u32;
    if v < 0x80 {
        1
    } else if v < 0x800 {
        2
    } else if v < 0x10000 {
        3
    } else {
        4
    }
}

fn hex_digit(c: char) -> (r: Option<u32>)
    ensures
        r is Some <==> is_hex(c),
        r matches Some(v) ==> v as int == hex_val(c) && v < 16,
{
    if '0' <= c && c <= '9' {
        Some((c as u32) - ('0' as u32))
    } else if 'a' <= c && c <= 'f' {
        Some((c as u32) - ('a' as u32) + 10)
    } else if 'A' <= c && c <= 'F' {
        Some((c as u32) - ('A' as u32) + 10)
    } else {
        None
    }
}

/// Reads the four hex digits of a `\u` escape at raw position `a` of
/// `raw = input[lo..hi]`; errors point at `err_pos`.
fn read_hex4(input: &Vec<char>, lo: usize, hi: usize, a: usize, err_pos: usize) -> (r: Result<u32, ParseError>)
    requires
        lo <= hi <= input@.len() < usize::MAX,
        a <= hi - lo,
    ensures
        agrees(r, hex4(input@.subrange(lo as int, hi as int), a as int, err_pos as int), input@,
            |x: u32, y: int| x as int == y),
        r matches Ok(v) ==> v <= 0xFFFF,
{
    let ghost raw = input@.subrange(lo as int, hi as int);
    let len = hi - lo;
    if len >= 4 && a <= len - 4 {
        let c0 = input[lo + a];
        let c1 = input[lo + a + 1];
        let c2 = input[lo + a + 2];
        let c3 = input[lo + a + 3];
        assert(c0 == raw[a as int] && c1 == raw[a + 1] && c2 == raw[a + 2] && c3 == raw[a + 3]);
        if (c0 as u32) < 0x80 && (c1 as u32) < 0x80 && (c2 as u32) < 0x80 && (c3 as u32) < 0x80 {
            if c0 == '+' {
                match (hex_digit(c1), hex_digit(c2), hex_digit(c3)) {
                    (Some(b), Some(c), Some(d)) => {
                        return Ok(b * 256 + c * 16 + d);
                    },
                    _ => {},
                }
            } else {
                match (hex_digit(c0), hex_digit(c1), hex_digit(c2), hex_digit(c3)) {
                    (Some(x), Some(b), Some(c), Some(d)) => {
                        return Ok(x * 4096 + b * 256 + c * 16 + d);
                    },
                    _ => {},
                }
            }
            return Err(err_at(input, err_pos, String::from_str("invalid unicode escape")));
        }
    }
    let end = if len >= 4 && a <= len - 4 { a + 4 } else { len };
    let mut bytes: usize = 0;
    let mut k = a;
    while k < end
        invariant
            a <= k <= end <= len,
            len == hi - lo,
            lo <= hi <= input@.len(),
            raw == input@.subrange(lo as int, hi as int),
            end <= a + 4,
            bytes as int == utf8_len_seq(raw.subrange(a as int, k as int)),
            bytes <= 4 * (k - a),
        decreases end - k,
    {
        proof {
            assert(raw.subrange(a as int, k + 1).drop_last() =~= raw.subrange(a as int, k as int));
        }
        bytes += utf8_len_exec(input[lo + k]);
        k += 1;
    }
    if bytes >= 4 {
        Err(err_at(input, err_pos, String::from_str("invalid unicode escape")))
    } else {
        Err(err_at(input, err_pos, String::from_str("truncated unicode escape")))
    }
}


pub proof fn lemma_then_seq_assoc<T>(a: Seq<T>, b: Seq<T>, r: Result<Seq<T>, ErrM>)
    ensures
        then_seq(a, then_seq(b, r)) == then_seq(a + b, r),
{
    match r {
        Ok(rest) => {
            assert(a + (b + rest) =~= (a + b) + rest);
        },
        Err(_) => {},
    }
}

fn lead_byte(c: char) -> (r: char)
    ensures
        r == lead_byte_char(c),
{
    let v = c as u32;
    if v < 0x80 {
        c
    } else if v < 0x800 {
        ((0xC0 | (v >> 6u32)) as u8) as char
    } else if v < 0x10000 {
        ((0xE0 | (v >> 12u32)) as u8) as char
    } else {
        ((0xF0 | (v >> 18u32)) as u8) as char
    }
}

fn simple_escape_exec(e: char) -> (r: Option<char>)
    ensures
        r == simple_escape(e),
{
    match e {
        '\'' => Some('\''),
        '"' => Some('"'),
        '\\' => Some('\\'),
        '/' => Some('/'),
        'b' => Some('\u{8}'),
        'f' => Some('\u{c}'),
        'n' => Some('\n'),
        'r' => Some('\r'),
        't' => Some('\t'),
        _ => None,
    }
}

/// Decodes the escape unit at raw position `i` of `raw = input[lo..hi]`.
fn unescape_unit(input: &Vec<char>, lo: usize, hi: usize, i: usize) -> (r: Result<(char, usize), ParseError>)
    requires
        lo <= hi <= input@.len() < usize::MAX,
        i < hi - lo,
    ensures
        agrees(r, escape_unit(input@.subrange(lo as int, hi as int), lo as int, i as int), input@,
            |x: (char, usize), y: (char, int)| x.0 == y.0 && x.1 as int == y.1),
        r matches Ok((_, j)) ==> i < j <= hi - lo,
{
    let ghost raw = input@.subrange(lo as int, hi as int);
    let len = hi - lo;
    let c = input[lo + i];
    assert(c == raw[i as int]);
    if c != '\\' {
        return Ok((c, i + 1));
    }
    if i + 1 >= len {
        return Err(err_at(input, lo + i, String::from_str("dangling escape")));
    }
    let e = input[lo + i + 1];
    assert(e == raw[i + 1]);
    match simple_escape_exec(e) {
        Some(ch) => {
            return Ok((ch, i + 2));
        },
        None => {},
    }
    if e != 'u' {
        let mut msg = String::from_str("invalid escape '\\");
        push_char(&mut msg, lead_byte(e));
        msg.append("'");
        assert(msg@ =~= invalid_escape_msg(e));
        return Err(err_at(input, lo + i, msg));
    }
    let high = match read_hex4(input, lo, hi, i + 2, lo + i) {
        Ok(v) => v,
        Err(x) => {
            return Err(x);
        },
    };
    let mut j = i + 6;
    let cp: u32;
    if 0xD800 <= high && high <= 0xDBFF {
        if j + 1 < len && input[lo + j] == '\\' && input[lo + j + 1] == 'u' {
            assert(at(raw, j as int) == '\\' && at(raw, j + 1) == 'u');
            let low = match read_hex4(input, lo, hi, j + 2, lo + j) {
                Ok(v) => v,
                Err(x) => {
                    return Err(x);
                },
            };
            if 0xDC00 <= low && low <= 0xDFFF {
                cp = 0x10000 + (high - 0xD800) * 1024 + (low - 0xDC00);
                j += 6;
            } else {
                return Err(err_at(input, lo + j, String::from_str("unpaired surrogate")));
            }
        } else {
            proof {
                if j + 1 < len {
                    assert(at(raw, j as int) == raw[j as int]);
                    assert(at(raw, j + 1) == raw[j + 1]);
                }
            }
            return Err(err_at(input, lo + j, String::from_str("unpaired surrogate")));
        }
    } else {
        cp = high;
    }
    match char_from_u32(cp) {
        Some(ch) => Ok((ch, j)),
        None => Err(err_at(input, lo + j, String::from_str("invalid unicode escape"))),
    }
}

/// Decodes the escapes of `raw = input[lo..hi]` (a string literal's
/// body).
fn unescape(input: &Vec<char>, lo: usize, hi: usize) -> (r: Result<String, ParseError>)
    requires
        lo <= hi <= input@.len() < usize::MAX,
    ensures
        agrees(r, unescape_from(input@.subrange(lo as int, hi as int), lo as int, 0), input@,
            |x: String, y: Seq<char>| x@ == y),
{
    let ghost raw = input@.subrange(lo as int, hi as int);
    let len = hi - lo;
    let mut out = String::new();
    let mut i: usize = 0;
    while i < len
        invariant
            i <= len,
            len == hi - lo,
            lo <= hi <= input@.len() < usize::MAX,
            raw == input@.subrange(lo as int, hi as int),
            unescape_from(raw, lo as int, 0) == then_seq(out@, unescape_from(raw, lo as int, i as int)),
        decreases len - i,
    {
        match unescape_unit(input, lo, hi, i) {
            Ok((ch, j)) => {
                proof {
                    assert(escape_unit(raw, lo as int, i as int) == Ok::<(char, int), ErrM>((ch, j as int)));
                    assert(unescape_from(raw, lo as int, i as int) == then_seq(seq![ch], unescape_from(raw, lo as int, j as int)));
                    lemma_then_seq_assoc(out@, seq![ch], unescape_from(raw, lo as int, j as int));
                }
                let ghost before = out@;
                push_char(&mut out, ch);
                assert(out@ =~= before + seq![ch]);
                i = j;
            },
            Err(x) => {
                return Err(x);
            },
        }
    }
    assert(out@ + Seq::<char>::empty() =~= out@);
    Ok(out)
}

/// The string literal whose opening quote `q` is at `start`: its decoded
/// content and the position after its closing quote.
fn lex_string(input: &Vec<char>, start: usize, q: char) -> (r: Result<(String, usize), ParseError>)
    requires
        start < input@.len() < usize::MAX,
    ensures
        agrees(r, lex_string_spec(input@, start as int, q), input@,
            |x: (String, usize), y: (Seq<char>, int)| x.0@ == y.0 && x.1 as int == y.1),
{
    let mut i = start + 1;
    let mut bs = false;
    while i < input.len() && input[i] != q
        invariant
            start < i <= input@.len() + 1,
            input@.len() < usize::MAX,
            string_scan(input@, i as int, q, bs) == string_scan(input@, start + 1, q, false),
        decreases input@.len() + 2 - i,
    {
        if input[i] == '\\' {
            bs = true;
            i += 2;
        } else {
            i += 1;
        }
    }
    if i >= input.len() {
        return Err(err_at(input, start, String::from_str("unterminated string literal")));
    }
    if !bs {
        Ok((string_of(input, start + 1, i), i + 1))
    } else {
        match unescape(input, start + 1, i) {
            Ok(t) => Ok((t, i + 1)),
            Err(x) => Err(x),
        }
    }
}


/// One lexing step at `input[i]`.
fn lex_one(input: &Vec<char>, i: usize) -> (r: Result<(Option<Item>, usize), ParseError>)
    requires
        i < input@.len() < usize::MAX,
    ensures
        agrees(r, lex_step(input@, i as int), input@,
            |x: (Option<Item>, usize), y: (Option<ItemM>, int)|
                (match x.0 { Some(it) => Some(it@), None => None::<ItemM> }) == y.0 && x.1 as int == y.1),
        r matches Ok((_, j)) ==> i < j <= input@.len(),
{
    let c = input[i];
    match c {
        ' ' | '\t' => Ok((None, i + 1)),
        '\r' => {
            let j = if at_char(input, i + 1) == '\n' { i + 2 } else { i + 1 };
            Ok((Some(Item::Newline), j))
        },
        '\n' => Ok((Some(Item::Newline), i + 1)),
        '#' => {
            proof { lemma_line_end(input@, i + 1); }
            let e = line_end_exec(input, i + 1);
            Ok((Some(Item::Comment(string_of(input, i, e))), e))
        },
        '{' => Ok((Some(Item::Real(RealTok::LBrace, Span { start: i, end: i + 1 })), i + 1)),
        '}' => Ok((Some(Item::Real(RealTok::RBrace, Span { start: i, end: i + 1 })), i + 1)),
        '[' => Ok((Some(Item::Real(RealTok::LBracket, Span { start: i, end: i + 1 })), i + 1)),
        ']' => Ok((Some(Item::Real(RealTok::RBracket, Span { start: i, end: i + 1 })), i + 1)),
        ':' => Ok((Some(Item::Real(RealTok::Colon, Span { start: i, end: i + 1 })), i + 1)),
        '=' => Ok((Some(Item::Real(RealTok::Equals, Span { start: i, end: i + 1 })), i + 1)),
        ',' => Ok((Some(Item::Real(RealTok::Comma, Span { start: i, end: i + 1 })), i + 1)),
        '|' => {
            proof { lemma_line_end(input@, i + 1); }
            let e = line_end_exec(input, i + 1);
            Ok((Some(Item::Real(RealTok::VerbatimFragment(string_of(input, i + 1, e)), Span { start: i, end: e })), e))
        },
        '"' | '\'' => {
            let kind = if c == '"' { QuoteKind::Double } else { QuoteKind::Single };
            match lex_string(input, i, c) {
                Ok((text, e)) => {
                    proof { lemma_string_scan(input@, i + 1, c, false); }
                    Ok((Some(Item::Real(RealTok::Str(text, kind), Span { start: i, end: e })), e))
                },
                Err(x) => Err(x),
            }
        },
        _ => {
            if c == '-' && !is_digit_exec(at_char(input, i + 1)) {
                proof { lemma_bare_end(input@, i + 1); }
                let e = lex_bare(input, i + 1);
                Ok((Some(Item::Real(RealTok::Bare(string_of(input, i, e)), Span { start: i, end: e })), e))
            } else if c == '-' || is_digit_exec(c) {
                proof { lemma_number_end(input@, i as int); }
                match lex_number(input, i) {
                    Ok(e) => Ok((Some(Item::Real(RealTok::Number(string_of(input, i, e)), Span { start: i, end: e })), e)),
                    Err(x) => Err(x),
                }
            } else if is_id_start(c) {
                proof { lemma_bare_end(input@, i + 1); }
                let e = lex_bare(input, i + 1);
                Ok((Some(Item::Real(RealTok::Bare(string_of(input, i, e)), Span { start: i, end: e })), e))
            } else {
                Err(err_at(input, i, unexpected_char_message(c)))
            }
        },
    }
}

/// Lexes the whole input into real tokens interleaved with comments and
/// line breaks.
pub fn lex(input: &Vec<char>) -> (r: Result<Vec<Item>, ParseError>)
    requires
        input@.len() < usize::MAX,
    ensures
        agrees(r, lex_spec(input@), input@, |v: Vec<Item>, m: Seq<ItemM>| items_view(v@) == m),
{
    let mut items: Vec<Item> = Vec::new();
    let mut i: usize = 0;
    while i < input.len()
        invariant
            i <= input@.len() < usize::MAX,
            lex_from(input@, 0) == then_seq(items_view(items@), lex_from(input@, i as int)),
        decreases input@.len() - i,
    {
        match lex_one(input, i) {
            Ok((it, j)) => {
                let ghost before = items@;
                let ghost m = match it { Some(ref x) => Some(x@), None => None::<ItemM> };
                proof {
                    assert(lex_from(input@, i as int) == then_seq(opt_seq(m), lex_from(input@, j as int)));
                    lemma_then_seq_assoc(items_view(before), opt_seq(m), lex_from(input@, j as int));
                }
                match it {
                    Some(x) => {
                        items.push(x);
                        assert(items_view(items@) =~= items_view(before) + opt_seq(m));
                    },
                    None => {
                        assert(items_view(items@) =~= items_view(before) + opt_seq(m));
                    },
                }
                i = j;
            },
            Err(x) => {
                return Err(x);
            },
        }
    }
    assert(items_view(items@) + Seq::<ItemM>::empty() =~= items_view(items@));
    Ok(items)
}

// ---------------------------------------------------------------------
// Where the tokens stand in the text.

/// The start of a real token's span (0 for trivia).
pub open spec fn span_start(it: ItemM) -> int {
    match it {
        ItemM::Real(_, a, _) => a,
        _ => 0,
    }
}

/// The end of a real token's span (0 for trivia).
pub open spec fn span_end(it: ItemM) -> int {
    match it {
        ItemM::Real(_, _, b) => b,
        _ => 0,
    }
}

/// A real token's span lies in `s` from `lo` on and is not empty; a
/// number's or a bare word's text is the text of its span, and a verbatim
/// fragment's text is its span after the `|`.
pub open spec fn item_fits(s: Seq<char>, it: ItemM, lo: int) -> bool {
    match it {
        ItemM::Real(t, a, b) => lo <= a < b <= s.len() && match t {
            TokM::Number(r) => r == s.subrange(a, b),
            TokM::Bare(r) => r == s.subrange(a, b),
            TokM::Verbatim(r) => s.subrange(a, b) == seq!['|'] + r,
            _ => true,
        },
        _ => true,
    }
}

/// The spans of the real tokens follow one another without overlap.
pub open spec fn spans_in_order(items: Seq<ItemM>) -> bool {
    forall|k1: int, k2: int|
        0 <= k1 < k2 < items.len() && #[trigger] items[k1] is Real && #[trigger] items[k2] is Real ==> span_end(items[k1])
            <= span_start(items[k2])
}

/// The items the lexer makes from `s[i..]` stand in `s` in order.
pub proof fn lemma_lex_spans(s: Seq<char>, i: int)
    requires
        0 <= i <= s.len(),
    ensures
        lex_from(s, i) matches Ok(items) ==> spans_in_order(items) && forall|k: int|
            0 <= k < items.len() ==> item_fits(s, #[trigger] items[k], i),
    decreases s.len() - i,
{
    if i < s.len() {
        match lex_step(s, i) {
            Ok((it, j)) => if i < j <= s.len() {
                lemma_lex_spans(s, j);
                if let Ok(rest) = lex_from(s, j) {
                    let head = opt_seq(it);
                    let items = head + rest;
                    assert(lex_from(s, i) == Ok::<Seq<ItemM>, ErrM>(items));
                    if let Some(ItemM::Real(t, a, b)) = it {
                        assert(a == i && b == j);
                        if let TokM::Verbatim(r) = t {
                            assert(s.subrange(a, b) =~= seq!['|'] + r);
                        }
                        assert(item_fits(s, items[0], i));
                    }
                    assert forall|k: int| 0 <= k < items.len() implies item_fits(s, #[trigger] items[k], i) by {
                        if k >= head.len() {
                            assert(items[k] == rest[k - head.len()]);
                            assert(item_fits(s, rest[k - head.len()], j));
                        }
                    }
                    assert forall|k1: int, k2: int|
                        0 <= k1 < k2 < items.len() && #[trigger] items[k1] is Real && #[trigger] items[k2] is Real implies span_end(
                            items[k1],
                        ) <= span_start(items[k2]) by {
                        assert(items[k2] == rest[k2 - head.len()]);
                        assert(item_fits(s, rest[k2 - head.len()], j));
                        if k1 >= head.len() {
                            assert(items[k1] == rest[k1 - head.len()]);
                        } else {
                            assert(items[k1] == it->0);
                        }
                    }
                }
            },
            Err(_) => {},
        }
    }
}

/// Every real token the lexer makes stands in the text: its span is in
/// the text and not empty, the spans follow one another in order without
/// overlap, and a number's or bare word's text is the text of its span (a
/// verbatim fragment's, its span after the `|`).
pub proof fn law_lexed_tokens_stand_in_the_text(s: Seq<char>)
    ensures
        lex_spec(s) matches Ok(items) ==> spans_in_order(items) && forall|k: int|
            0 <= k < items.len() ==> item_fits(s, #[trigger] items[k], 0),
{
    lemma_lex_spans(s, 0);
}

} // verus!
