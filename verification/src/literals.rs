//! What the text means, stated in the grammar's own terms: which
//! characters make a bare key, what each escape decodes to, and how a
//! literal reads and writes.

use vstd::prelude::*;
use crate::lexer::{
    digits_end, escape_unit, hex4, hex_val, is_id_end_spec, is_scalar, number_end, parse_hex4, unicode_escape, is_id_start_spec, lex_from, lex_spec, lex_step, lex_string_spec, string_scan, then_seq,
    unescape_from, ItemM, QuoteKind, TokM,
};
use crate::model::{EntryM, ErrM};
use crate::parser::{ctx_of, note_commas, p_bare_root, parse_spec, pref, real_toks, strip_bom};
use crate::roundtrip::lemma_bare_end_at;
use crate::number::{digit_value, digits_value, frac_digits, frac_end, int_end, lit_neg, mantissa, num_eq_spec, scale, ten_to, valid_literal};
use crate::style::empty_style;
use crate::trivia::{count_real, initial_state, is_real, scan_upto};
use crate::model::{DocumentM, NodeM, ValueM};
use crate::style::{KeyStyle, Quote, Separator, Style};
use crate::writer::{esc, esc_char, hex_lower, quote_char, w_document_raw, w_entries_from, w_key, w_prefix, w_quoted, w_value, write_spec};
use crate::roundtrip::{lemma_ind0, lemma_nl_back_at, lemma_nl_skip_at};

verus! {

// ---------------------------------------------------------------------
// Bare keys.

/// An ASCII letter.
pub open spec fn ascii_letter(c: char) -> bool {
    ('a' <= c && c <= 'z') || ('A' <= c && c <= 'Z')
}

/// The characters of the CSON grammar's bare-key class: every ASCII
/// letter, `$`, `-` and `_` start a bare key; those, the digits and `.`
/// continue one.
pub proof fn law_bare_key_characters(c: char)
    ensures
        ascii_letter(c) || c == '$' || c == '-' || c == '_' ==> is_id_start_spec(c),
        ascii_letter(c) || c == '$' || c == '-' || c == '_' || ('0' <= c && c <= '9') || c == '.' ==> is_id_end_spec(c),
        c == ':' || c == '=' || c == ' ' || c == '\t' || c == '\n' || c == '\r' || c == ',' || c == '#' || c == '"'
            || c == '\'' || c == '{' || c == '}' || c == '[' || c == ']' || c == '|' ==> !is_id_end_spec(c),
{
}

// ---------------------------------------------------------------------
// The writer's literals.

/// The writer writes `null`, `true` and `false` as those words, whatever
/// the depth and the style.
pub proof fn law_writer_writes_literals(n: NodeM, d: int, st: Style)
    ensures
        n.value == ValueM::Bool(true) ==> w_value(n, d, st) == "true"@,
        n.value == ValueM::Bool(false) ==> w_value(n, d, st) == "false"@,
        n.value == ValueM::Null ==> w_value(n, d, st) == "null"@,
{
}

/// A document whose root is a bare boolean is written as the word.
pub proof fn law_written_boolean_document(b: bool, st: Style)
    ensures
        write_spec(
            DocumentM {
                root: NodeM { prefix: Seq::empty(), value: ValueM::Bool(b) },
                suffix: Seq::empty(),
                bare_root: false,
                style: st,
            },
        ) == (if b { "true"@ } else { "false"@ }) + seq!['\n'],
{
    reveal_strlit("true");
    reveal_strlit("false");
    let d = DocumentM {
        root: NodeM { prefix: Seq::empty(), value: ValueM::Bool(b) },
        suffix: Seq::empty(),
        bare_root: false,
        style: st,
    };
    let lit = if b { "true"@ } else { "false"@ };
    lemma_ind0(st);
    assert(w_prefix(Seq::<char>::empty(), 0, st) == Seq::<char>::empty());
    let raw = w_document_raw(d);
    assert(raw =~= seq!['\n'] + lit + seq!['\n']);
    lemma_nl_skip_at(raw, 0, 1);
    lemma_nl_back_at(raw, 1, raw.len() - 1, raw.len() as int);
    assert(raw.subrange(1, raw.len() - 1) =~= lit);
}

// ---------------------------------------------------------------------
// Escapes.

/// The single-character escapes of JSON (and CSON's `\'`): `e` after a
/// backslash stands for `d`.
pub open spec fn json_escape(e: char, d: char) -> bool {
    ||| e == '"' && d == '"'
    ||| e == '\'' && d == '\''
    ||| e == '\\' && d == '\\'
    ||| e == '/' && d == '/'
    ||| e == 'b' && d == '\u{8}'
    ||| e == 'f' && d == '\u{c}'
    ||| e == 'n' && d == '\u{a}'
    ||| e == 'r' && d == '\u{d}'
    ||| e == 't' && d == '\u{9}'
}

/// Text with no quote `q` and no backslash.
pub open spec fn plain(t: Seq<char>, q: char) -> bool {
    forall|k: int| 0 <= k < t.len() ==> #[trigger] t[k] != q && t[k] != '\\'
}

proof fn lemma_scan_plain(s: Seq<char>, i: int, j: int, q: char, bs: bool)
    requires
        0 <= i <= j <= s.len(),
        forall|k: int| i <= k < j ==> #[trigger] s[k] != q && s[k] != '\\',
    ensures
        string_scan(s, i, q, bs) == string_scan(s, j, q, bs),
    decreases j - i,
{
    if i < j {
        lemma_scan_plain(s, i + 1, j, q, bs);
    }
}

proof fn lemma_unescape_plain(raw: Seq<char>, off: int, i: int, j: int)
    requires
        0 <= i <= j <= raw.len(),
        forall|k: int| i <= k < j ==> #[trigger] raw[k] != '\\',
    ensures
        unescape_from(raw, off, i) == then_seq(raw.subrange(i, j), unescape_from(raw, off, j)),
    decreases j - i,
{
    if i < j {
        lemma_unescape_plain(raw, off, i + 1, j);
        assert(escape_unit(raw, off, i) == Ok::<(char, int), crate::model::ErrM>((raw[i], i + 1)));
        match unescape_from(raw, off, j) {
            Ok(r) => {
                assert(seq![raw[i]] + (raw.subrange(i + 1, j) + r) =~= raw.subrange(i, j) + r);
            },
            Err(_) => {},
        }
    } else {
        match unescape_from(raw, off, j) {
            Ok(r) => assert(raw.subrange(i, j) + r =~= r),
            Err(_) => {},
        }
    }
}

/// A string literal holding one single-character escape between plain
/// text decodes the escape as in JSON (`\t` to U+0009, `\/` to `/`, ...)
/// and keeps the rest as written.
pub proof fn law_escapes_decode_as_in_json(a: Seq<char>, e: char, d: char, b: Seq<char>, q: char)
    requires
        q == '"' || q == '\'',
        json_escape(e, d),
        plain(a, q),
        plain(b, q),
    ensures
        lex_string_spec(seq![q] + a + seq!['\\', e] + b + seq![q], 0, q) == Ok::<(Seq<char>, int), crate::model::ErrM>(
            (a + seq![d] + b, a.len() + b.len() + 4int),
        ),
{
    let s = seq![q] + a + seq!['\\', e] + b + seq![q];
    let na = a.len() as int;
    let nb = b.len() as int;
    assert forall|k: int| 1 <= k < 1 + na implies #[trigger] s[k] != q && s[k] != '\\' by {
        assert(s[k] == a[k - 1]);
    }
    lemma_scan_plain(s, 1, 1 + na, q, false);
    assert(s[1 + na] == '\\');
    assert forall|k: int| 3 + na <= k < 3 + na + nb implies #[trigger] s[k] != q && s[k] != '\\' by {
        assert(s[k] == b[k - 3 - na]);
    }
    lemma_scan_plain(s, 3 + na, 3 + na + nb, q, true);
    assert(s[3 + na + nb] == q);
    assert(string_scan(s, 1, q, false) == (3 + na + nb, true));
    let raw = s.subrange(1, 3 + na + nb);
    assert(raw =~= a + seq!['\\', e] + b);
    assert forall|k: int| 0 <= k < na implies #[trigger] raw[k] != '\\' by {
        assert(raw[k] == a[k]);
    }
    lemma_unescape_plain(raw, 1, 0, na);
    assert(raw[na] == '\\' && raw[na + 1] == e);
    assert(escape_unit(raw, 1, na) == Ok::<(char, int), crate::model::ErrM>((d, na + 2)));
    assert forall|k: int| na + 2 <= k < raw.len() implies #[trigger] raw[k] != '\\' by {
        assert(raw[k] == b[k - na - 2]);
    }
    lemma_unescape_plain(raw, 1, na + 2, raw.len() as int);
    assert(unescape_from(raw, 1, raw.len() as int) == Ok::<Seq<char>, crate::model::ErrM>(Seq::empty()));
    assert(raw.subrange(na + 2, raw.len() as int) =~= b);
    assert(raw.subrange(0, na) =~= a);
    assert(b + Seq::<char>::empty() =~= b);
    assert(a + (seq![d] + b) =~= a + seq![d] + b);
}

// ---------------------------------------------------------------------
// A bare key and a literal read back as written.

/// A key of ASCII letters, digits, `_`, `$` and `-`, starting with a letter,
/// `_` or `$`.
pub open spec fn ascii_key(t: Seq<char>) -> bool {
    &&& t.len() > 0
    &&& ascii_letter(t[0]) || t[0] == '_' || t[0] == '$'
    &&& forall|k: int| 0 <= k < t.len() ==> #[trigger] ascii_letter(t[k]) || ('0' <= t[k] && t[k] <= '9') || t[k] == '_'
        || t[k] == '$' || t[k] == '-'
}

proof fn lemma_scan_no_comments(items: Seq<ItemM>, k: int)
    requires
        0 <= k <= items.len(),
        forall|m: int| 0 <= m < items.len() ==> !(#[trigger] items[m] is Comment),
    ensures
        scan_upto(items, k).prefixes == initial_state(count_real(items)).prefixes,
    decreases k,
{
    if k > 0 {
        lemma_scan_no_comments(items, k - 1);
        assert(!(items[k - 1] is Comment));
    }
}

/// The items the text `t: w` lexes to, for a key `t` of ASCII word
/// characters and a boolean word `w`.
proof fn lemma_lex_key_entry(t: Seq<char>, w: Seq<char>)
    requires
        ascii_key(t),
        ascii_key(w),
        ascii_letter(w[0]),
    ensures
        ({
            let s = t + seq![':', ' '] + w;
            let n = t.len() as int;
            &&& strip_bom(s) == s
            &&& lex_spec(s) == Ok::<Seq<ItemM>, ErrM>(
                seq![
                    ItemM::Real(TokM::Bare(t), 0, n),
                    ItemM::Real(TokM::Colon, n, n + 1),
                    ItemM::Real(TokM::Bare(w), n + 2, s.len() as int),
                ],
            )
        }),
{
    let s = t + seq![':', ' '] + w;
    let n = t.len() as int;
    let len = s.len() as int;
    assert(len == n + 2 + w.len());
    assert(strip_bom(s) == s);
    assert forall|k: int| 1 <= k < n implies is_id_end_spec(#[trigger] s[k]) by {
        assert(s[k] == t[k]);
        law_bare_key_characters(t[k]);
    }
    law_bare_key_characters(s[0]);
    law_bare_key_characters(':');
    assert(s[n] == ':');
    lemma_bare_end_at(s, 1, n);
    assert(s.subrange(0, n) =~= t);
    let i0 = ItemM::Real(TokM::Bare(t), 0, n);
    assert(lex_step(s, 0) == Ok::<(Option<ItemM>, int), ErrM>((Some(i0), n)));
    let i1 = ItemM::Real(TokM::Colon, n, n + 1);
    assert(lex_step(s, n) == Ok::<(Option<ItemM>, int), ErrM>((Some(i1), n + 1)));
    assert(s[n + 1] == ' ');
    assert(lex_step(s, n + 1) == Ok::<(Option<ItemM>, int), ErrM>((None, n + 2)));
    assert forall|k: int| n + 3 <= k < len implies is_id_end_spec(#[trigger] s[k]) by {
        assert(s[k] == w[k - n - 2]);
        law_bare_key_characters(w[k - n - 2]);
    }
    law_bare_key_characters(w[0]);
    assert(s[n + 2] == w[0]);
    lemma_bare_end_at(s, n + 3, len);
    assert(s.subrange(n + 2, len) =~= w);
    let i2 = ItemM::Real(TokM::Bare(w), n + 2, len);
    assert(lex_step(s, n + 2) == Ok::<(Option<ItemM>, int), ErrM>((Some(i2), len)));
    assert(lex_from(s, len) == Ok::<Seq<ItemM>, ErrM>(Seq::empty()));
    assert(lex_from(s, n + 2) == Ok::<Seq<ItemM>, ErrM>(seq![i2]));
    assert(lex_from(s, n + 1) == Ok::<Seq<ItemM>, ErrM>(seq![i2])) by {
        assert(Seq::<ItemM>::empty() + seq![i2] =~= seq![i2]);
    }
    assert(lex_from(s, n) == Ok::<Seq<ItemM>, ErrM>(seq![i1, i2])) by {
        assert(seq![i1] + seq![i2] =~= seq![i1, i2]);
    }
    assert(lex_from(s, 0) == Ok::<Seq<ItemM>, ErrM>(seq![i0, i1, i2])) by {
        assert(seq![i0] + seq![i1, i2] =~= seq![i0, i1, i2]);
    }
}

/// The parser's view of three real tokens with no trivia.
proof fn lemma_three_tokens(s: Seq<char>, i0: ItemM, i1: ItemM, i2: ItemM, t0: TokM, t1: TokM, t2: TokM)
    requires
        i0 matches ItemM::Real(x, _, _) && x == t0,
        i1 matches ItemM::Real(x, _, _) && x == t1,
        i2 matches ItemM::Real(x, _, _) && x == t2,
    ensures
        ctx_of(s, seq![i0, i1, i2]).toks == seq![t0, t1, t2],
        pref(ctx_of(s, seq![i0, i1, i2]), 0) == Seq::<char>::empty(),
        pref(ctx_of(s, seq![i0, i1, i2]), 1) == Seq::<char>::empty(),
        pref(ctx_of(s, seq![i0, i1, i2]), 2) == Seq::<char>::empty(),
        pref(ctx_of(s, seq![i0, i1, i2]), 3) == Seq::<char>::empty(),
        ctx_of(s, seq![i0, i1, i2]).prefixes.len() == 4,
{
    let items = seq![i0, i1, i2];
    let l1 = seq![i0];
    let l2 = seq![i0, i1];
    assert(items.drop_last() =~= l2);
    assert(l2.drop_last() =~= l1);
    assert(l1.drop_last() =~= Seq::<ItemM>::empty());
    assert(l1.last() == i0);
    assert(l2.last() == i1);
    assert(items.last() == i2);
    assert(real_toks(Seq::<ItemM>::empty()) == Seq::<TokM>::empty());
    assert(count_real(Seq::<ItemM>::empty()) == 0);
    assert(is_real(i0) && is_real(i1) && is_real(i2));
    assert(real_toks(l1) =~= seq![t0]);
    assert(real_toks(l2) =~= seq![t0, t1]);
    assert(real_toks(items) =~= seq![t0, t1, t2]);
    assert(count_real(l1) == 1);
    assert(count_real(l2) == 2);
    assert(count_real(items) == 3);
    lemma_scan_no_comments(items, 3);
    let c = ctx_of(s, items);
    assert(c.prefixes == initial_state(3).prefixes);
    assert(c.prefixes[0] == Seq::<char>::empty());
    assert(c.prefixes[1] == Seq::<char>::empty());
    assert(c.prefixes[2] == Seq::<char>::empty());
    assert(c.prefixes[3] == Seq::<char>::empty());
}

/// The words the text writes for the literal values, each with the value
/// it stands for.
pub open spec fn literal_word(w: Seq<char>, v: ValueM) -> bool {
    ||| w == seq!['t', 'r', 'u', 'e'] && v == ValueM::Bool(true)
    ||| w == seq!['f', 'a', 'l', 's', 'e'] && v == ValueM::Bool(false)
    ||| w == seq!['n', 'u', 'l', 'l'] && v == ValueM::Null
}

/// The text `t: w`, for a key `t` of ASCII word characters and a literal
/// word `w` (`true`, `false`, `null`), parses to a brace-less object with
/// the single entry `t` holding the value the word stands for, and no
/// comment anywhere.
#[verifier::rlimit(40)]
pub proof fn law_bare_key_and_literal_read_back(t: Seq<char>, w: Seq<char>, v: ValueM)
    requires
        ascii_key(t),
        literal_word(w, v),
    ensures
        parse_spec(t + seq![':', ' '] + w) matches Ok(d) && d.bare_root && d.root.value == (ValueM::Object {
            entries: seq![
                EntryM {
                    key: NodeM { prefix: Seq::empty(), value: ValueM::Str(t) },
                    value: NodeM { prefix: Seq::empty(), value: v },
                },
            ],
            trailing: Seq::empty(),
        }) && d.suffix == Seq::<char>::empty() && d.style.separator == Some(Separator::Colon) && d.style.key_style == Some(
            KeyStyle::Bare,
        ),
{
    reveal_strlit("true");
    reveal_strlit("false");
    reveal_strlit("null");
    let s = t + seq![':', ' '] + w;
    let n = t.len() as int;
    assert(ascii_key(w));
    lemma_lex_key_entry(t, w);
    let i0 = ItemM::Real(TokM::Bare(t), 0, n);
    let i1 = ItemM::Real(TokM::Colon, n, n + 1);
    let i2 = ItemM::Real(TokM::Bare(w), n + 2, s.len() as int);
    lemma_three_tokens(s, i0, i1, i2, TokM::Bare(t), TokM::Colon, TokM::Bare(w));
    let c = ctx_of(s, seq![i0, i1, i2]);
    assert(pref(c, 0) == Seq::<char>::empty());
    assert(pref(c, 2) == Seq::<char>::empty());
    assert(pref(c, 3) == Seq::<char>::empty());
    if v == ValueM::Bool(true) {
        assert(w == "true"@);
    } else if v == ValueM::Bool(false) {
        assert(w != "true"@);
        assert(w == "false"@);
    } else {
        assert(w != "true"@);
        assert(w != "false"@);
        assert(w == "null"@);
    }
    let key = NodeM { prefix: Seq::empty(), value: ValueM::Str(t) };
    let val = NodeM { prefix: Seq::empty(), value: v };
    match p_bare_root(c, 0, empty_style()) {
        Ok((es, p, st)) => {
            assert(es == seq![EntryM { key, value: val }]);
            assert(p == 3);
        },
        Err(_) => {
            assert(false);
        },
    }
}

// ---------------------------------------------------------------------
// The writer's escapes.

/// Where JSON has a short escape for a character (other than `\/`, which
/// is never needed), the writer uses it: a quote only in strings it
/// delimits.
pub proof fn law_writer_uses_short_escapes(c: char, e: char, q: Quote)
    requires
        json_escape(e, c),
        e != '/',
        c == '\'' ==> q == Quote::Single,
        c == '"' ==> q == Quote::Double,
    ensures
        w_quoted(seq![c], q) == seq![quote_char(q), '\\', e, quote_char(q)],
{
    let one = seq![c];
    assert(one.drop_last() =~= Seq::<char>::empty());
    assert(one.last() == c);
    assert(esc(Seq::<char>::empty(), quote_char(q)) == Seq::<char>::empty());
    assert(Seq::<char>::empty() + esc_char(c, quote_char(q)) =~= esc_char(c, quote_char(q)));
    assert(esc(one, quote_char(q)) == esc_char(c, quote_char(q)));
}

/// The writer writes text with no backslash, no delimiting quote and no
/// control character as it is, between the quotes.
pub proof fn law_writer_keeps_plain_text(t: Seq<char>, q: Quote)
    requires
        forall|k: int| 0 <= k < t.len() ==> #[trigger] t[k] != '\\' && t[k] != quote_char(q) && (t[k] as u32) >= 0x20,
    ensures
        w_quoted(t, q) == seq![quote_char(q)] + t + seq![quote_char(q)],
{
    lemma_esc_plain(t, quote_char(q));
}

proof fn lemma_esc_plain(t: Seq<char>, qc: char)
    requires
        forall|k: int| 0 <= k < t.len() ==> #[trigger] t[k] != '\\' && t[k] != qc && (t[k] as u32) >= 0x20,
    ensures
        esc(t, qc) == t,
    decreases t.len(),
{
    if t.len() > 0 {
        let init = t.drop_last();
        assert forall|k: int| 0 <= k < init.len() implies #[trigger] init[k] != '\\' && init[k] != qc && (init[k] as u32)
            >= 0x20 by {
            assert(init[k] == t[k]);
        }
        lemma_esc_plain(init, qc);
        let c = t.last();
        assert(c == t[t.len() - 1]);
        assert(c != '\n' && c != '\r' && c != '\t' && c != '\u{8}' && c != '\u{c}');
        assert(esc_char(c, qc) == seq![c]);
        assert(init + seq![c] =~= t);
    }
}

/// The items the text `t: "x"` lexes to, for a key `t` of ASCII word
/// characters and a string `x` with no backslash and no delimiting quote.
proof fn lemma_lex_key_string(t: Seq<char>, x: Seq<char>, q: Quote)
    requires
        ascii_key(t),
        plain(x, quote_char(q)),
    ensures
        ({
            let s = t + seq![':', ' ', quote_char(q)] + x + seq![quote_char(q)];
            let n = t.len() as int;
            &&& strip_bom(s) == s
            &&& lex_spec(s) == Ok::<Seq<ItemM>, ErrM>(
                seq![
                    ItemM::Real(TokM::Bare(t), 0, n),
                    ItemM::Real(TokM::Colon, n, n + 1),
                    ItemM::Real(TokM::Str(x, if q is Double { QuoteKind::Double } else { QuoteKind::Single }), n + 2, s.len() as int),
                ],
            )
        }),
{
    let qc = quote_char(q);
    let s = t + seq![':', ' ', qc] + x + seq![qc];
    let n = t.len() as int;
    let len = s.len() as int;
    assert(len == n + 4 + x.len());
    assert(strip_bom(s) == s);
    assert forall|k: int| 1 <= k < n implies is_id_end_spec(#[trigger] s[k]) by {
        assert(s[k] == t[k]);
        law_bare_key_characters(t[k]);
    }
    law_bare_key_characters(s[0]);
    law_bare_key_characters(':');
    assert(s[n] == ':');
    lemma_bare_end_at(s, 1, n);
    assert(s.subrange(0, n) =~= t);
    let i0 = ItemM::Real(TokM::Bare(t), 0, n);
    assert(lex_step(s, 0) == Ok::<(Option<ItemM>, int), ErrM>((Some(i0), n)));
    let i1 = ItemM::Real(TokM::Colon, n, n + 1);
    assert(lex_step(s, n) == Ok::<(Option<ItemM>, int), ErrM>((Some(i1), n + 1)));
    assert(s[n + 1] == ' ');
    assert(lex_step(s, n + 1) == Ok::<(Option<ItemM>, int), ErrM>((None, n + 2)));
    assert(s[n + 2] == qc);
    assert forall|k: int| n + 3 <= k < len - 1 implies #[trigger] s[k] != qc && s[k] != '\\' by {
        assert(s[k] == x[k - n - 3]);
    }
    lemma_scan_plain(s, n + 3, len - 1, qc, false);
    assert(s[len - 1] == qc);
    assert(string_scan(s, n + 3, qc, false) == (len - 1, false));
    assert(s.subrange(n + 3, len - 1) =~= x);
    assert(lex_string_spec(s, n + 2, qc) == Ok::<(Seq<char>, int), ErrM>((x, len)));
    let kind = if q is Double { QuoteKind::Double } else { QuoteKind::Single };
    let i2 = ItemM::Real(TokM::Str(x, kind), n + 2, len);
    assert(lex_step(s, n + 2) == Ok::<(Option<ItemM>, int), ErrM>((Some(i2), len)));
    assert(lex_from(s, len) == Ok::<Seq<ItemM>, ErrM>(Seq::empty()));
    assert(lex_from(s, n + 2) == Ok::<Seq<ItemM>, ErrM>(seq![i2]));
    assert(lex_from(s, n + 1) == Ok::<Seq<ItemM>, ErrM>(seq![i2])) by {
        assert(Seq::<ItemM>::empty() + seq![i2] =~= seq![i2]);
    }
    assert(lex_from(s, n) == Ok::<Seq<ItemM>, ErrM>(seq![i1, i2])) by {
        assert(seq![i1] + seq![i2] =~= seq![i1, i2]);
    }
    assert(lex_from(s, 0) == Ok::<Seq<ItemM>, ErrM>(seq![i0, i1, i2])) by {
        assert(seq![i0] + seq![i1, i2] =~= seq![i0, i1, i2]);
    }
}

/// The text `t: "x"` (or `t: 'x'`), for a key `t` of ASCII word
/// characters and a string `x` with no backslash and no delimiting quote,
/// parses to a brace-less object with the single entry `t` holding the
/// string `x`, and records the quote it was written in.
#[verifier::rlimit(40)]
pub proof fn law_bare_key_and_string_read_back(t: Seq<char>, x: Seq<char>, q: Quote)
    requires
        ascii_key(t),
        plain(x, quote_char(q)),
    ensures
        parse_spec(t + seq![':', ' ', quote_char(q)] + x + seq![quote_char(q)]) matches Ok(d) && d.bare_root
            && d.root.value == (ValueM::Object {
            entries: seq![
                EntryM {
                    key: NodeM { prefix: Seq::empty(), value: ValueM::Str(t) },
                    value: NodeM { prefix: Seq::empty(), value: ValueM::Str(x) },
                },
            ],
            trailing: Seq::empty(),
        }) && d.suffix == Seq::<char>::empty() && d.style.eff_value_quote() == q,
{
    let qc = quote_char(q);
    let s = t + seq![':', ' ', qc] + x + seq![qc];
    let n = t.len() as int;
    lemma_lex_key_string(t, x, q);
    let kind = if q is Double { QuoteKind::Double } else { QuoteKind::Single };
    let i0 = ItemM::Real(TokM::Bare(t), 0, n);
    let i1 = ItemM::Real(TokM::Colon, n, n + 1);
    let i2 = ItemM::Real(TokM::Str(x, kind), n + 2, s.len() as int);
    lemma_three_tokens(s, i0, i1, i2, TokM::Bare(t), TokM::Colon, TokM::Str(x, kind));
    let c = ctx_of(s, seq![i0, i1, i2]);
    assert(pref(c, 0) == Seq::<char>::empty());
    assert(pref(c, 2) == Seq::<char>::empty());
    assert(pref(c, 3) == Seq::<char>::empty());
    let key = NodeM { prefix: Seq::empty(), value: ValueM::Str(t) };
    let val = NodeM { prefix: Seq::empty(), value: ValueM::Str(x) };
    match p_bare_root(c, 0, empty_style()) {
        Ok((es, p, st)) => {
            assert(es == seq![EntryM { key, value: val }]);
            assert(p == 3);
            assert(st.value_quote == Some(q));
        },
        Err(_) => {
            assert(false);
        },
    }
}

/// A key of ASCII word characters is written bare when the style writes
/// keys bare.
pub proof fn law_writer_writes_ascii_keys_bare(t: Seq<char>, prefix: Seq<char>, st: Style)
    requires
        ascii_key(t),
        st.eff_key_style() == KeyStyle::Bare,
    ensures
        w_key(NodeM { prefix, value: ValueM::Str(t) }, st) == t,
{
    law_bare_key_characters(t[0]);
    assert forall|i: int| 1 <= i < t.len() implies #[trigger] is_id_end_spec(t[i]) by {
        law_bare_key_characters(t[i]);
    }
}

/// A decimal integer literal: digits, the first not `0` unless it is the
/// only one.
pub open spec fn integer_word(w: Seq<char>) -> bool {
    &&& w.len() > 0
    &&& forall|k: int| 0 <= k < w.len() ==> '0' <= #[trigger] w[k] && w[k] <= '9'
    &&& w[0] == '0' ==> w.len() == 1
}

proof fn lemma_digits_to_end(s: Seq<char>, i: int)
    requires
        0 <= i <= s.len(),
        forall|k: int| i <= k < s.len() ==> '0' <= #[trigger] s[k] && s[k] <= '9',
    ensures
        digits_end(s, i) == s.len(),
    decreases s.len() - i,
{
    if i < s.len() {
        lemma_digits_to_end(s, i + 1);
    }
}

/// The text `t: n`, for a key `t` of ASCII word characters and a decimal
/// integer literal `n`, parses to a brace-less object with the single
/// entry `t` holding the number written `n`.
#[verifier::rlimit(40)]
pub proof fn law_bare_key_and_integer_read_back(t: Seq<char>, w: Seq<char>)
    requires
        ascii_key(t),
        integer_word(w),
    ensures
        parse_spec(t + seq![':', ' '] + w) matches Ok(d) && d.bare_root && d.root.value == (ValueM::Object {
            entries: seq![
                EntryM {
                    key: NodeM { prefix: Seq::empty(), value: ValueM::Str(t) },
                    value: NodeM { prefix: Seq::empty(), value: ValueM::Number(w) },
                },
            ],
            trailing: Seq::empty(),
        }) && d.suffix == Seq::<char>::empty(),
{
    let s = t + seq![':', ' '] + w;
    let n = t.len() as int;
    let len = s.len() as int;
    assert(len == n + 2 + w.len());
    assert(strip_bom(s) == s);
    assert forall|k: int| 1 <= k < n implies is_id_end_spec(#[trigger] s[k]) by {
        assert(s[k] == t[k]);
        law_bare_key_characters(t[k]);
    }
    law_bare_key_characters(s[0]);
    law_bare_key_characters(':');
    assert(s[n] == ':');
    lemma_bare_end_at(s, 1, n);
    assert(s.subrange(0, n) =~= t);
    let i0 = ItemM::Real(TokM::Bare(t), 0, n);
    assert(lex_step(s, 0) == Ok::<(Option<ItemM>, int), ErrM>((Some(i0), n)));
    let i1 = ItemM::Real(TokM::Colon, n, n + 1);
    assert(lex_step(s, n) == Ok::<(Option<ItemM>, int), ErrM>((Some(i1), n + 1)));
    assert(s[n + 1] == ' ');
    assert(lex_step(s, n + 1) == Ok::<(Option<ItemM>, int), ErrM>((None, n + 2)));
    assert forall|k: int| n + 2 <= k < len implies '0' <= #[trigger] s[k] && s[k] <= '9' by {
        assert(s[k] == w[k - n - 2]);
    }
    lemma_digits_to_end(s, n + 3);
    assert(s[n + 2] == w[0]);
    assert(number_end(s, n + 2) == Ok::<int, ErrM>(len));
    assert(s.subrange(n + 2, len) =~= w);
    let i2 = ItemM::Real(TokM::Number(w), n + 2, len);
    assert(lex_step(s, n + 2) == Ok::<(Option<ItemM>, int), ErrM>((Some(i2), len)));
    assert(lex_from(s, len) == Ok::<Seq<ItemM>, ErrM>(Seq::empty()));
    assert(lex_from(s, n + 2) == Ok::<Seq<ItemM>, ErrM>(seq![i2]));
    assert(lex_from(s, n + 1) == Ok::<Seq<ItemM>, ErrM>(seq![i2])) by {
        assert(Seq::<ItemM>::empty() + seq![i2] =~= seq![i2]);
    }
    assert(lex_from(s, n) == Ok::<Seq<ItemM>, ErrM>(seq![i1, i2])) by {
        assert(seq![i1] + seq![i2] =~= seq![i1, i2]);
    }
    assert(lex_from(s, 0) == Ok::<Seq<ItemM>, ErrM>(seq![i0, i1, i2])) by {
        assert(seq![i0] + seq![i1, i2] =~= seq![i0, i1, i2]);
    }
    lemma_three_tokens(s, i0, i1, i2, TokM::Bare(t), TokM::Colon, TokM::Number(w));
    let c = ctx_of(s, seq![i0, i1, i2]);
    assert(pref(c, 0) == Seq::<char>::empty());
    assert(pref(c, 2) == Seq::<char>::empty());
    assert(pref(c, 3) == Seq::<char>::empty());
    let key = NodeM { prefix: Seq::empty(), value: ValueM::Str(t) };
    let val = NodeM { prefix: Seq::empty(), value: ValueM::Number(w) };
    match p_bare_root(c, 0, empty_style()) {
        Ok((es, p, st)) => {
            assert(es == seq![EntryM { key, value: val }]);
            assert(p == 3);
        },
        Err(_) => {
            assert(false);
        },
    }
}

/// A brace-less document with the single entry `t` holding a literal
/// value, written with bare keys, `:` and no trailing comma, is the text
/// `t: w` -- the text the parser reads back to that document.
pub proof fn law_written_literal_entry(t: Seq<char>, w: Seq<char>, v: ValueM, st: Style)
    requires
        ascii_key(t),
        literal_word(w, v),
        st.eff_key_style() == KeyStyle::Bare,
        st.eff_separator() == Separator::Colon,
        !st.eff_trailing_comma(),
    ensures
        write_spec(
            DocumentM {
                root: NodeM {
                    prefix: Seq::empty(),
                    value: ValueM::Object {
                        entries: seq![
                            EntryM {
                                key: NodeM { prefix: Seq::empty(), value: ValueM::Str(t) },
                                value: NodeM { prefix: Seq::empty(), value: v },
                            },
                        ],
                        trailing: Seq::empty(),
                    },
                },
                suffix: Seq::empty(),
                bare_root: true,
                style: st,
            },
        ) == t + seq![':', ' '] + w + seq!['\n'],
{
    reveal_strlit("true");
    reveal_strlit("false");
    reveal_strlit("null");
    let key = NodeM { prefix: Seq::empty(), value: ValueM::Str(t) };
    let val = NodeM { prefix: Seq::empty(), value: v };
    let entries = seq![EntryM { key, value: val }];
    let d = DocumentM {
        root: NodeM { prefix: Seq::empty(), value: ValueM::Object { entries, trailing: Seq::empty() } },
        suffix: Seq::empty(),
        bare_root: true,
        style: st,
    };
    lemma_ind0(st);
    assert(w_prefix(Seq::<char>::empty(), 0, st) == Seq::<char>::empty());
    law_writer_writes_ascii_keys_bare(t, Seq::empty(), st);
    law_writer_writes_literals(val, 0, st);
    assert(w_value(val, 0, st) == w);
    assert(w_entries_from(entries, 1, -1, st) == Seq::<char>::empty());
    assert(w_entries_from(entries, 0, -1, st) =~= seq!['\n'] + t + seq![':', ' '] + w);
    let raw = w_document_raw(d);
    let body = t + seq![':', ' '] + w;
    assert(raw =~= seq!['\n'] + body + seq!['\n', '\n']);
    assert(body[0] == t[0]);
    assert(body[body.len() - 1] == w[w.len() - 1]);
    lemma_nl_skip_at(raw, 0, 1);
    lemma_nl_back_at(raw, 1, raw.len() - 2, raw.len() as int);
    assert(raw.subrange(1, raw.len() - 2) =~= body);
}

/// A hexadecimal digit, and its value.
pub open spec fn hex_digit(c: char, v: int) -> bool {
    ||| '0' <= c && c <= '9' && v == c as int - '0' as int
    ||| 'a' <= c && c <= 'f' && v == c as int - 'a' as int + 10
    ||| 'A' <= c && c <= 'F' && v == c as int - 'A' as int + 10
}

/// A string literal holding one `\u` escape of four hexadecimal digits
/// between plain text decodes the escape to the character with that code
/// point (when it is not a surrogate) and keeps the rest as written.
#[verifier::rlimit(30)]
pub proof fn law_unicode_escape_decodes(a: Seq<char>, h: Seq<char>, v: Seq<int>, b: Seq<char>, q: char)
    requires
        q == '"' || q == '\'',
        plain(a, q),
        plain(b, q),
        h.len() == 4,
        v.len() == 4,
        forall|k: int| 0 <= k < 4 ==> hex_digit(#[trigger] h[k], v[k]),
        !(0xD800 <= v[0] * 4096 + v[1] * 256 + v[2] * 16 + v[3] <= 0xDFFF),
    ensures
        lex_string_spec(seq![q] + a + seq!['\\', 'u'] + h + b + seq![q], 0, q) == Ok::<(Seq<char>, int), ErrM>(
            (a + seq![(v[0] * 4096 + v[1] * 256 + v[2] * 16 + v[3]) as char] + b, a.len() + b.len() + 8int),
        ),
{
    let cp = v[0] * 4096 + v[1] * 256 + v[2] * 16 + v[3];
    let s = seq![q] + a + seq!['\\', 'u'] + h + b + seq![q];
    let na = a.len() as int;
    let nb = b.len() as int;
    assert(hex_digit(h[0], v[0]) && hex_digit(h[1], v[1]) && hex_digit(h[2], v[2]) && hex_digit(h[3], v[3]));
    assert forall|k: int| 1 <= k < 1 + na implies #[trigger] s[k] != q && s[k] != '\\' by {
        assert(s[k] == a[k - 1]);
    }
    lemma_scan_plain(s, 1, 1 + na, q, false);
    assert(s[1 + na] == '\\');
    assert forall|k: int| 3 + na <= k < 7 + na + nb implies #[trigger] s[k] != q && s[k] != '\\' by {
        if k < 7 + na {
            assert(s[k] == h[k - 3 - na]);
        } else {
            assert(s[k] == b[k - 7 - na]);
        }
    }
    lemma_scan_plain(s, 3 + na, 7 + na + nb, q, true);
    assert(s[7 + na + nb] == q);
    assert(string_scan(s, 1, q, false) == (7 + na + nb, true));
    let raw = s.subrange(1, 7 + na + nb);
    assert(raw =~= a + seq!['\\', 'u'] + h + b);
    assert forall|k: int| 0 <= k < na implies #[trigger] raw[k] != '\\' by {
        assert(raw[k] == a[k]);
    }
    lemma_unescape_plain(raw, 1, 0, na);
    assert(raw[na] == '\\' && raw[na + 1] == 'u');
    assert(raw[na + 2] == h[0] && raw[na + 3] == h[1] && raw[na + 4] == h[2] && raw[na + 5] == h[3]);
    assert(hex_val(h[0]) == v[0] && hex_val(h[1]) == v[1] && hex_val(h[2]) == v[2] && hex_val(h[3]) == v[3]);
    assert(parse_hex4(h[0], h[1], h[2], h[3]) == Some(cp));
    assert(hex4(raw, na + 2, 1 + na) == Ok::<int, ErrM>(cp));
    assert(0 <= cp < 0x10000);
    assert(is_scalar(cp));
    assert(unicode_escape(raw, 1, na) == Ok::<(char, int), ErrM>((cp as char, na + 6)));
    assert(escape_unit(raw, 1, na) == Ok::<(char, int), ErrM>((cp as char, na + 6)));
    assert forall|k: int| na + 6 <= k < raw.len() implies #[trigger] raw[k] != '\\' by {
        assert(raw[k] == b[k - na - 6]);
    }
    lemma_unescape_plain(raw, 1, na + 6, raw.len() as int);
    assert(unescape_from(raw, 1, raw.len() as int) == Ok::<Seq<char>, ErrM>(Seq::empty()));
    assert(raw.subrange(na + 6, raw.len() as int) =~= b);
    assert(raw.subrange(0, na) =~= a);
    assert(b + Seq::<char>::empty() =~= b);
    assert(a + (seq![cp as char] + b) =~= a + seq![cp as char] + b);
}

/// The writer writes a control character that has no short escape as
/// `\u00` and two lowercase hexadecimal digits of its code.
pub proof fn law_writer_escapes_controls(c: char, q: Quote)
    requires
        (c as int) < 0x20,
        c != '\u{8}' && c != '\u{9}' && c != '\u{a}' && c != '\u{c}' && c != '\u{d}',
    ensures
        ({
            let r = w_quoted(seq![c], q);
            &&& r.len() == 8
            &&& r[0] == quote_char(q) && r[7] == quote_char(q)
            &&& r[1] == '\\' && r[2] == 'u' && r[3] == '0' && r[4] == '0'
            &&& hex_digit(r[5], (c as int) / 16) && !('A' <= r[5] && r[5] <= 'F')
            &&& hex_digit(r[6], (c as int) % 16) && !('A' <= r[6] && r[6] <= 'F')
        }),
{
    let one = seq![c];
    let qc = quote_char(q);
    assert(one.drop_last() =~= Seq::<char>::empty());
    assert(one.last() == c);
    assert(esc(Seq::<char>::empty(), qc) == Seq::<char>::empty());
    assert(Seq::<char>::empty() + esc_char(c, qc) =~= esc_char(c, qc));
    assert(c != qc);
    assert(c != '\\');
    assert((c as u32) < 0x20);
    let hi = ((c as u32) / 16) as int;
    let lo = ((c as u32) % 16) as int;
    assert(hi == (c as int) / 16 && lo == (c as int) % 16);
    assert(0 <= hi < 2);
    assert(hex_lower(hi) == (('0' as int) + hi) as char);
    assert(hex_digit(hex_lower(hi), hi));
    if lo < 10 {
        assert(hex_lower(lo) == (('0' as int) + lo) as char);
    } else {
        assert(hex_lower(lo) == (('a' as int) + lo - 10) as char);
    }
    assert(hex_digit(hex_lower(lo), lo));
}

// ---------------------------------------------------------------------
// Numbers compare by value.

/// `digits_end` over a run of digits stops right after it.
proof fn lemma_digits_stop(s: Seq<char>, i: int, e: int)
    requires
        0 <= i <= e <= s.len(),
        forall|k: int| i <= k < e ==> '0' <= #[trigger] s[k] && s[k] <= '9',
        e == s.len() || !('0' <= s[e] && s[e] <= '9'),
    ensures
        digits_end(s, i) == e,
    decreases e - i,
{
    if i < e {
        lemma_digits_stop(s, i + 1, e);
    }
}

/// The value of the digits `d` followed by one more digit.
proof fn lemma_digits_push(d: Seq<char>, c: char)
    ensures
        digits_value(d.push(c)) == digits_value(d) * 10 + digit_value(c),
{
    assert(d.push(c).drop_last() =~= d);
}

/// Parts of the literal `d . f`, for integer digits `d` and fraction
/// digits `f`.
proof fn lemma_frac_literal(d: Seq<char>, f: Seq<char>)
    requires
        integer_word(d),
        f.len() > 0,
        forall|k: int| 0 <= k < f.len() ==> '0' <= #[trigger] f[k] && f[k] <= '9',
    ensures
        valid_literal(d + seq!['.'] + f),
        mantissa(d + seq!['.'] + f) == d + f,
        scale(d + seq!['.'] + f) == -(f.len() as int),
        !lit_neg(d + seq!['.'] + f),
{
    let s = d + seq!['.'] + f;
    let n = d.len() as int;
    assert forall|k: int| 0 <= k < n implies '0' <= #[trigger] s[k] && s[k] <= '9' by {
        assert(s[k] == d[k]);
    }
    assert(s[n] == '.');
    if d[0] != '0' {
        lemma_digits_stop(s, 1, n);
    }
    assert(int_end(s) == n);
    assert forall|k: int| n + 1 <= k < s.len() implies '0' <= #[trigger] s[k] && s[k] <= '9' by {
        assert(s[k] == f[k - n - 1]);
    }
    lemma_digits_stop(s, n + 1, s.len() as int);
    assert(frac_end(s) == s.len());
    assert(s.subrange(0, n) =~= d);
    assert(s.subrange(n + 1, s.len() as int) =~= f);
    assert(number_end(s, 0) == Ok::<int, ErrM>(s.len() as int));
}

/// Parts of the integer literal `d`.
proof fn lemma_int_literal(d: Seq<char>)
    requires
        integer_word(d),
    ensures
        valid_literal(d),
        mantissa(d) == d,
        scale(d) == 0,
        !lit_neg(d),
{
    let n = d.len() as int;
    if d[0] != '0' {
        lemma_digits_stop(d, 1, n);
    }
    assert(int_end(d) == n);
    assert(d.subrange(0, n) =~= d);
    assert(frac_digits(d) == Seq::<char>::empty());
    assert(d + Seq::<char>::empty() =~= d);
    assert(number_end(d, 0) == Ok::<int, ErrM>(n));
}

/// Number equality compares values, not texts: an integer equals itself
/// written with a zero fraction, a fraction equals itself with a zero
/// appended, and a fraction of five tenths added makes a different number.
pub proof fn law_numbers_compare_by_value(d: Seq<char>, f: Seq<char>)
    requires
        integer_word(d),
        f.len() > 0,
        forall|k: int| 0 <= k < f.len() ==> '0' <= #[trigger] f[k] && f[k] <= '9',
    ensures
        num_eq_spec(d, d + seq!['.', '0']),
        num_eq_spec(d + seq!['.'] + f, d + seq!['.'] + f + seq!['0']),
        !num_eq_spec(d, d + seq!['.', '5']),
{
    lemma_int_literal(d);
    lemma_frac_literal(d, seq!['0']);
    lemma_frac_literal(d, seq!['5']);
    let f0 = f.push('0');
    assert forall|k: int| 0 <= k < f0.len() implies '0' <= #[trigger] f0[k] && f0[k] <= '9' by {
        if k < f.len() {
            assert(f0[k] == f[k]);
        }
    }
    lemma_frac_literal(d, f);
    lemma_frac_literal(d, f0);
    assert(d + seq!['.', '0'] =~= d + seq!['.'] + seq!['0']);
    assert(d + seq!['.', '5'] =~= d + seq!['.'] + seq!['5']);
    assert(d + seq!['.'] + f + seq!['0'] =~= d + seq!['.'] + f0);
    lemma_digits_push(d, '0');
    lemma_digits_push(d, '5');
    assert(d + seq!['0'] =~= d.push('0'));
    assert(d + seq!['5'] =~= d.push('5'));
    lemma_digits_push(d + f, '0');
    assert(d + f0 =~= (d + f).push('0'));
    assert(ten_to(1) == 10) by {
        reveal_with_fuel(vstd::arithmetic::power::pow, 2);
    }
    assert(digit_value('0') == 0 && digit_value('5') == 5);
    assert((d + seq!['.', '5']) != d) by {
        assert((d + seq!['.', '5']).len() != d.len());
    }
}

// ---------------------------------------------------------------------
// The `=` separator.

proof fn lemma_lex_key_equals(t: Seq<char>, w: Seq<char>)
    requires
        ascii_key(t),
        ascii_key(w),
        ascii_letter(w[0]),
    ensures
        ({
            let s = t + seq![' ', '=', ' '] + w;
            let n = t.len() as int;
            &&& strip_bom(s) == s
            &&& lex_spec(s) == Ok::<Seq<ItemM>, ErrM>(
                seq![
                    ItemM::Real(TokM::Bare(t), 0, n),
                    ItemM::Real(TokM::Equals, n + 1, n + 2),
                    ItemM::Real(TokM::Bare(w), n + 3, s.len() as int),
                ],
            )
        }),
{
    let s = t + seq![' ', '=', ' '] + w;
    let n = t.len() as int;
    let len = s.len() as int;
    assert(len == n + 3 + w.len());
    assert(strip_bom(s) == s);
    assert forall|k: int| 1 <= k < n implies is_id_end_spec(#[trigger] s[k]) by {
        assert(s[k] == t[k]);
        law_bare_key_characters(t[k]);
    }
    law_bare_key_characters(s[0]);
    law_bare_key_characters(' ');
    assert(s[n] == ' ');
    lemma_bare_end_at(s, 1, n);
    assert(s.subrange(0, n) =~= t);
    let i0 = ItemM::Real(TokM::Bare(t), 0, n);
    assert(lex_step(s, 0) == Ok::<(Option<ItemM>, int), ErrM>((Some(i0), n)));
    assert(lex_step(s, n) == Ok::<(Option<ItemM>, int), ErrM>((None, n + 1)));
    assert(s[n + 1] == '=');
    let i1 = ItemM::Real(TokM::Equals, n + 1, n + 2);
    assert(lex_step(s, n + 1) == Ok::<(Option<ItemM>, int), ErrM>((Some(i1), n + 2)));
    assert(s[n + 2] == ' ');
    assert(lex_step(s, n + 2) == Ok::<(Option<ItemM>, int), ErrM>((None, n + 3)));
    assert forall|k: int| n + 4 <= k < len implies is_id_end_spec(#[trigger] s[k]) by {
        assert(s[k] == w[k - n - 3]);
        law_bare_key_characters(w[k - n - 3]);
    }
    law_bare_key_characters(w[0]);
    assert(s[n + 3] == w[0]);
    lemma_bare_end_at(s, n + 4, len);
    assert(s.subrange(n + 3, len) =~= w);
    let i2 = ItemM::Real(TokM::Bare(w), n + 3, len);
    assert(lex_step(s, n + 3) == Ok::<(Option<ItemM>, int), ErrM>((Some(i2), len)));
    assert(lex_from(s, len) == Ok::<Seq<ItemM>, ErrM>(Seq::empty()));
    assert(lex_from(s, n + 3) == Ok::<Seq<ItemM>, ErrM>(seq![i2]));
    assert(lex_from(s, n + 2) == Ok::<Seq<ItemM>, ErrM>(seq![i2])) by {
        assert(Seq::<ItemM>::empty() + seq![i2] =~= seq![i2]);
    }
    assert(lex_from(s, n + 1) == Ok::<Seq<ItemM>, ErrM>(seq![i1, i2])) by {
        assert(seq![i1] + seq![i2] =~= seq![i1, i2]);
    }
    assert(lex_from(s, n) == Ok::<Seq<ItemM>, ErrM>(seq![i1, i2])) by {
        assert(Seq::<ItemM>::empty() + seq![i1, i2] =~= seq![i1, i2]);
    }
    assert(lex_from(s, 0) == Ok::<Seq<ItemM>, ErrM>(seq![i0, i1, i2])) by {
        assert(seq![i0] + seq![i1, i2] =~= seq![i0, i1, i2]);
    }
}

/// The text `t = w`, for a key `t` of ASCII word characters and a literal
/// word `w`, parses to the single entry `t` holding the value the word
/// stands for, and records `=` as the separator.
#[verifier::rlimit(40)]
pub proof fn law_equals_separator_read_back(t: Seq<char>, w: Seq<char>, v: ValueM)
    requires
        ascii_key(t),
        literal_word(w, v),
    ensures
        parse_spec(t + seq![' ', '=', ' '] + w) matches Ok(d) && d.bare_root && d.root.value == (ValueM::Object {
            entries: seq![
                EntryM {
                    key: NodeM { prefix: Seq::empty(), value: ValueM::Str(t) },
                    value: NodeM { prefix: Seq::empty(), value: v },
                },
            ],
            trailing: Seq::empty(),
        }) && d.style.separator == Some(Separator::Equals),
{
    reveal_strlit("true");
    reveal_strlit("false");
    reveal_strlit("null");
    let s = t + seq![' ', '=', ' '] + w;
    let n = t.len() as int;
    assert(ascii_key(w));
    lemma_lex_key_equals(t, w);
    let i0 = ItemM::Real(TokM::Bare(t), 0, n);
    let i1 = ItemM::Real(TokM::Equals, n + 1, n + 2);
    let i2 = ItemM::Real(TokM::Bare(w), n + 3, s.len() as int);
    lemma_three_tokens(s, i0, i1, i2, TokM::Bare(t), TokM::Equals, TokM::Bare(w));
    let c = ctx_of(s, seq![i0, i1, i2]);
    assert(pref(c, 0) == Seq::<char>::empty());
    assert(pref(c, 2) == Seq::<char>::empty());
    assert(pref(c, 3) == Seq::<char>::empty());
    if v == ValueM::Bool(true) {
        assert(w == "true"@);
    } else if v == ValueM::Bool(false) {
        assert(w != "true"@);
        assert(w == "false"@);
    } else {
        assert(w != "true"@);
        assert(w != "false"@);
        assert(w == "null"@);
    }
    let key = NodeM { prefix: Seq::empty(), value: ValueM::Str(t) };
    let val = NodeM { prefix: Seq::empty(), value: v };
    match p_bare_root(c, 0, empty_style()) {
        Ok((es, p, st)) => {
            assert(es == seq![EntryM { key, value: val }]);
            assert(p == 3);
        },
        Err(_) => {
            assert(false);
        },
    }
}

/// Written with `=` as the separator, such an entry is the text `t = w`.
pub proof fn law_written_equals_entry(t: Seq<char>, w: Seq<char>, v: ValueM, st: Style)
    requires
        ascii_key(t),
        literal_word(w, v),
        st.eff_key_style() == KeyStyle::Bare,
        st.eff_separator() == Separator::Equals,
        !st.eff_trailing_comma(),
    ensures
        write_spec(
            DocumentM {
                root: NodeM {
                    prefix: Seq::empty(),
                    value: ValueM::Object {
                        entries: seq![
                            EntryM {
                                key: NodeM { prefix: Seq::empty(), value: ValueM::Str(t) },
                                value: NodeM { prefix: Seq::empty(), value: v },
                            },
                        ],
                        trailing: Seq::empty(),
                    },
                },
                suffix: Seq::empty(),
                bare_root: true,
                style: st,
            },
        ) == t + seq![' ', '=', ' '] + w + seq!['\n'],
{
    reveal_strlit("true");
    reveal_strlit("false");
    reveal_strlit("null");
    let key = NodeM { prefix: Seq::empty(), value: ValueM::Str(t) };
    let val = NodeM { prefix: Seq::empty(), value: v };
    let entries = seq![EntryM { key, value: val }];
    let d = DocumentM {
        root: NodeM { prefix: Seq::empty(), value: ValueM::Object { entries, trailing: Seq::empty() } },
        suffix: Seq::empty(),
        bare_root: true,
        style: st,
    };
    lemma_ind0(st);
    assert(w_prefix(Seq::<char>::empty(), 0, st) == Seq::<char>::empty());
    law_writer_writes_ascii_keys_bare(t, Seq::empty(), st);
    law_writer_writes_literals(val, 0, st);
    assert(w_value(val, 0, st) == w);
    assert(w_entries_from(entries, 1, -1, st) == Seq::<char>::empty());
    assert(w_entries_from(entries, 0, -1, st) =~= seq!['\n'] + t + seq![' ', '=', ' '] + w);
    let raw = w_document_raw(d);
    let body = t + seq![' ', '=', ' '] + w;
    assert(raw =~= seq!['\n'] + body + seq!['\n', '\n']);
    assert(body[0] == t[0]);
    assert(body[body.len() - 1] == w[w.len() - 1]);
    lemma_nl_skip_at(raw, 0, 1);
    lemma_nl_back_at(raw, 1, raw.len() - 2, raw.len() as int);
    assert(raw.subrange(1, raw.len() - 2) =~= body);
}

} // verus!
