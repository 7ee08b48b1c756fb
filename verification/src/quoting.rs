//! A string value written by the writer reads back unchanged: the escapes
//! [`writer::esc`] produces are exactly the ones the lexer's
//! [`lexer::lex_string_spec`] decodes.

use vstd::prelude::*;
use crate::lexer::{
    escape_unit, hex4, hex_val, is_hex, is_scalar, lex_string_spec, parse_hex4, simple_escape, string_scan,
    unescape_from, unicode_escape, lex_from, lex_spec, lex_step, opt_seq, then_seq, ItemM, QuoteKind, TokM,
};
use crate::style::Quote;
use crate::writer::{esc, esc_char, hex_lower, quote_char, w_quoted};

verus! {

/// A quote character the writer uses.
pub open spec fn is_quote(q: char) -> bool {
    q == '"' || q == '\''
}

proof fn lemma_esc_concat(a: Seq<char>, b: Seq<char>, q: char)
    ensures
        esc(a + b, q) == esc(a, q) + esc(b, q),
    decreases b.len(),
{
    if b.len() == 0 {
        assert(a + b =~= a);
        assert(esc(a, q) + esc(b, q) =~= esc(a, q));
    } else {
        let b2 = b.drop_last();
        assert((a + b).drop_last() =~= a + b2);
        assert((a + b).last() == b.last());
        lemma_esc_concat(a, b2, q);
        assert(esc(a + b, q) =~= esc(a, q) + esc(b, q));
    }
}

/// `esc` works from the front, one character at a time.
proof fn lemma_esc_front(t: Seq<char>, q: char)
    requires
        t.len() > 0,
    ensures
        esc(t, q) == esc_char(t[0], q) + esc(t.drop_first(), q),
{
    assert(t =~= seq![t[0]] + t.drop_first());
    lemma_esc_concat(seq![t[0]], t.drop_first(), q);
    let one = seq![t[0]];
    assert(one.drop_last() =~= Seq::<char>::empty());
    assert(one.last() == t[0]);
    assert(esc(one.drop_last(), q) == Seq::<char>::empty());
    assert(esc(one, q) =~= esc_char(t[0], q));
}

proof fn lemma_hex_lower(v: int)
    requires
        0 <= v < 16,
    ensures
        is_hex(hex_lower(v)),
        hex_val(hex_lower(v)) == v,
        (hex_lower(v) as u32) < 0x80,
        hex_lower(v) != '\\',
        !is_quote(hex_lower(v)),
{
}

/// The three shapes of a written character: itself, a two-character
/// escape, or a `\u00XX` escape of a control character.
proof fn lemma_esc_char_shape(c: char, q: char)
    requires
        is_quote(q),
    ensures
        ({
            let u = esc_char(c, q);
            let v = c as u32;
            ||| u.len() == 1 && u[0] == c && c != q && c != '\\'
            ||| u.len() == 2 && u[0] == '\\' && simple_escape(u[1]) == Some(c)
            ||| u.len() == 6 && v < 0x20 && u[0] == '\\' && u[1] == 'u' && u[2] == '0' && u[3] == '0'
                && u[4] == hex_lower((v / 16) as int) && u[5] == hex_lower((v % 16) as int)
        }),
{
}

/// Scanning over one written character unit moves past it, noting whether
/// it was an escape.
proof fn lemma_scan_unit(s: Seq<char>, i: int, c: char, q: char, bs: bool)
    requires
        is_quote(q),
        0 <= i,
        i + esc_char(c, q).len() <= s.len(),
        s.subrange(i, i + esc_char(c, q).len()) == esc_char(c, q),
    ensures
        string_scan(s, i, q, bs) == string_scan(s, i + esc_char(c, q).len(), q, bs || esc_char(c, q).len() > 1),
{
    let u = esc_char(c, q);
    lemma_esc_char_shape(c, q);
    assert forall|k: int| 0 <= k < u.len() implies s[i + k] == u[k] by {
        assert(s.subrange(i, i + u.len())[k] == s[i + k]);
    }
    if u.len() == 1 {
        assert(s[i] == u[0]);
    } else if u.len() == 2 {
        assert(s[i] == u[0]);
    } else {
        let v = c as u32;
        lemma_hex_lower((v / 16) as int);
        lemma_hex_lower((v % 16) as int);
        assert(s[i] == u[0]);
        assert(s[i + 2] == u[2]);
        assert(s[i + 3] == u[3]);
        assert(s[i + 4] == u[4]);
        assert(s[i + 5] == u[5]);
        assert(string_scan(s, i + 5, q, true) == string_scan(s, i + 6, q, true));
        assert(string_scan(s, i + 4, q, true) == string_scan(s, i + 5, q, true));
        assert(string_scan(s, i + 3, q, true) == string_scan(s, i + 4, q, true));
        assert(string_scan(s, i + 2, q, true) == string_scan(s, i + 3, q, true));
    }
}

/// Scanning over the written form of `t` moves past all of it.
proof fn lemma_scan_esc(s: Seq<char>, i: int, t: Seq<char>, q: char, bs: bool)
    requires
        is_quote(q),
        0 <= i,
        i + esc(t, q).len() <= s.len(),
        s.subrange(i, i + esc(t, q).len()) == esc(t, q),
    ensures
        string_scan(s, i, q, bs) == string_scan(s, i + esc(t, q).len(), q, bs || esc(t, q) != t),
    decreases t.len(),
{
    if t.len() > 0 {
        let c = t[0];
        let rest = t.drop_first();
        lemma_esc_front(t, q);
        let u = esc_char(c, q);
        let e = esc(rest, q);
        assert(esc(t, q).len() == u.len() + e.len());
        assert(s.subrange(i, i + u.len()) =~= u) by {
            assert forall|k: int| 0 <= k < u.len() implies s.subrange(i, i + u.len())[k] == u[k] by {
                assert(s.subrange(i, i + esc(t, q).len())[k] == esc(t, q)[k]);
            }
        }
        assert(s.subrange(i + u.len(), i + u.len() + e.len()) =~= e) by {
            assert forall|k: int| 0 <= k < e.len() implies s.subrange(i + u.len(), i + u.len() + e.len())[k] == e[k] by {
                assert(s.subrange(i, i + esc(t, q).len())[u.len() + k] == esc(t, q)[u.len() + k]);
            }
        }
        lemma_scan_unit(s, i, c, q, bs);
        lemma_scan_esc(s, i + u.len(), rest, q, bs || u.len() > 1);
        // the written form differs from `t` exactly when some unit is an escape
        assert(esc(t, q) != t <==> (u.len() > 1 || e != rest)) by {
            if u.len() == 1 && e == rest {
                assert(esc(t, q) =~= t) by {
                    assert(t =~= seq![c] + rest);
                }
            }
            if u.len() > 1 {
                if esc(t, q) == t {
                    lemma_esc_len(rest, q);
                }
            }
            if u.len() == 1 && e != rest {
                if esc(t, q) == t {
                    assert(e =~= rest) by {
                        assert(e =~= esc(t, q).drop_first());
                        assert(rest =~= t.drop_first());
                    }
                }
            }
        }
    } else {
        assert(esc(t, q) =~= t);
    }
}

/// The written form is never shorter than the text.
proof fn lemma_esc_len(t: Seq<char>, q: char)
    ensures
        esc(t, q).len() >= t.len(),
    decreases t.len(),
{
    if t.len() > 0 {
        lemma_esc_len(t.drop_last(), q);
    }
}

/// Decoding one written character unit gives the character back.
proof fn lemma_unit_decodes(raw: Seq<char>, off: int, i: int, c: char, q: char)
    requires
        is_quote(q),
        0 <= i,
        i + esc_char(c, q).len() <= raw.len(),
        raw.subrange(i, i + esc_char(c, q).len()) == esc_char(c, q),
    ensures
        escape_unit(raw, off, i) == Ok::<(char, int), crate::model::ErrM>((c, i + esc_char(c, q).len())),
{
    let u = esc_char(c, q);
    lemma_esc_char_shape(c, q);
    assert forall|k: int| 0 <= k < u.len() implies raw[i + k] == u[k] by {
        assert(raw.subrange(i, i + u.len())[k] == raw[i + k]);
    }
    if u.len() == 1 {
        assert(raw[i] == u[0]);
    } else if u.len() == 2 {
        assert(raw[i] == u[0]);
        assert(raw[i + 1] == u[1]);
    } else {
        let v = c as u32;
        let (h1, h2) = ((v / 16) as int, (v % 16) as int);
        lemma_hex_lower(h1);
        lemma_hex_lower(h2);
        assert(raw[i] == u[0]);
        assert(raw[i + 1] == u[1]);
        assert(raw[i + 2] == u[2]);
        assert(raw[i + 3] == u[3]);
        assert(raw[i + 4] == u[4]);
        assert(raw[i + 5] == u[5]);
        assert(simple_escape('u') is None);
        assert(parse_hex4('0', '0', hex_lower(h1), hex_lower(h2)) == Some(h1 * 16 + h2));
        assert(h1 * 16 + h2 == v);
        assert(hex4(raw, i + 2, off + i) == Ok::<int, crate::model::ErrM>(v as int));
        assert(is_scalar(v as int));
        assert((v as int) as char == c);
        assert(unicode_escape(raw, off, i) == Ok::<(char, int), crate::model::ErrM>((c, i + 6)));
    }
}

/// Decoding the written form of `t` gives `t` back.
proof fn lemma_unescape_esc(raw: Seq<char>, off: int, i: int, t: Seq<char>, q: char)
    requires
        is_quote(q),
        0 <= i <= raw.len(),
        raw.subrange(i, raw.len() as int) == esc(t, q),
    ensures
        unescape_from(raw, off, i) == Ok::<Seq<char>, crate::model::ErrM>(t),
    decreases t.len(),
{
    if t.len() == 0 {
        assert(raw.len() - i == 0);
        assert(t =~= Seq::<char>::empty());
    } else {
        let c = t[0];
        let rest = t.drop_first();
        lemma_esc_front(t, q);
        let u = esc_char(c, q);
        let e = esc(rest, q);
        assert(esc(t, q).len() == u.len() + e.len());
        assert(raw.subrange(i, i + u.len()) =~= u) by {
            assert forall|k: int| 0 <= k < u.len() implies raw.subrange(i, i + u.len())[k] == u[k] by {
                assert(raw.subrange(i, raw.len() as int)[k] == esc(t, q)[k]);
            }
        }
        assert(raw.subrange(i + u.len(), raw.len() as int) =~= e) by {
            assert forall|k: int| 0 <= k < e.len() implies raw.subrange(i + u.len(), raw.len() as int)[k] == e[k] by {
                assert(raw.subrange(i, raw.len() as int)[u.len() + k] == esc(t, q)[u.len() + k]);
            }
        }
        lemma_unit_decodes(raw, off, i, c, q);
        lemma_unescape_esc(raw, off, i + u.len(), rest, q);
        assert(seq![c] + rest =~= t);
    }
}

/// The lexer reads a string literal the writer wrote at position `i` of
/// `s` back as exactly `t`, ending right after the closing quote.
pub proof fn lemma_quoted_at(s: Seq<char>, i: int, t: Seq<char>, q: Quote)
    requires
        0 <= i,
        i + w_quoted(t, q).len() <= s.len(),
        s.subrange(i, i + w_quoted(t, q).len()) == w_quoted(t, q),
    ensures
        lex_string_spec(s, i, quote_char(q)) == Ok::<(Seq<char>, int), crate::model::ErrM>(
            (t, i + w_quoted(t, q).len()),
        ),
{
    let qc = quote_char(q);
    let w = w_quoted(t, q);
    let e = esc(t, qc);
    let close = i + 1 + e.len() as int;
    assert forall|k: int| 0 <= k < w.len() implies s[i + k] == w[k] by {
        assert(s.subrange(i, i + w.len())[k] == s[i + k]);
    }
    assert(s.subrange(i + 1, close) =~= e) by {
        assert forall|k: int| 0 <= k < e.len() implies s.subrange(i + 1, close)[k] == e[k] by {
            assert(s[i + 1 + k] == w[1 + k]);
        }
    }
    lemma_scan_esc(s, i + 1, t, qc, false);
    assert(s[close] == w[1 + e.len() as int]);
    assert(string_scan(s, close, qc, e != t) == (close, e != t));
    if e == t {
        assert(s.subrange(i + 1, close) =~= t);
    } else {
        let raw = s.subrange(i + 1, close);
        assert(raw.subrange(0, raw.len() as int) =~= e);
        lemma_unescape_esc(raw, i + 1, 0, t, qc);
    }
}

/// A string written by the writer, in either quote style and whatever
/// follows it, reads back as exactly the same string: the lexer's string
/// token for the written literal holds `t` and ends right after the
/// closing quote.
pub proof fn law_quoted_string_reads_back(t: Seq<char>, q: Quote, after: Seq<char>)
    ensures
        lex_string_spec(w_quoted(t, q) + after, 0, quote_char(q)) == Ok::<(Seq<char>, int), crate::model::ErrM>(
            (t, w_quoted(t, q).len() as int),
        ),
{
    let s = w_quoted(t, q) + after;
    assert(s.subrange(0, w_quoted(t, q).len() as int) =~= w_quoted(t, q));
    lemma_quoted_at(s, 0, t, q);
}

/// A string written by the writer lexes, alone, as exactly one string
/// token holding the string, in the quote it was written with, spanning
/// the whole text.
pub proof fn law_quoted_string_lexes_as_one_token(t: Seq<char>, q: Quote)
    ensures
        lex_spec(w_quoted(t, q)) == Ok::<Seq<ItemM>, crate::model::ErrM>(
            seq![ItemM::Real(TokM::Str(t, if q is Double { QuoteKind::Double } else { QuoteKind::Single }), 0, w_quoted(t, q).len() as int)],
        ),
{
    let w = w_quoted(t, q);
    law_quoted_string_reads_back(t, q, Seq::empty());
    assert(w + Seq::<char>::empty() =~= w);
    assert(w[0] == quote_char(q));
    let it = ItemM::Real(TokM::Str(t, if q is Double { QuoteKind::Double } else { QuoteKind::Single }), 0, w.len() as int);
    assert(lex_step(w, 0) == Ok::<(Option<ItemM>, int), crate::model::ErrM>((Some(it), w.len() as int)));
    assert(lex_from(w, w.len() as int) == Ok::<Seq<ItemM>, crate::model::ErrM>(Seq::empty()));
    assert(opt_seq(Some(it)) + Seq::<ItemM>::empty() =~= seq![it]);
}

} // verus!
