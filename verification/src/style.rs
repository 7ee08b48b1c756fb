//! First-match layout detection.
//!
//! Each field of [`Style`] is set at most once, at the first time the
//! corresponding source construct is seen while parsing. The writer then
//! renders the *entire* output using these choices, uniformly -- never
//! per-node.

use vstd::prelude::*;
use crate::lexer::QuoteKind;
use crate::text::push_char;

verus! {

/// The key/value separator a [`Style`] renders with: `:` or CSON's `=`.
#[derive(Debug, Clone, Copy, PartialEq, Eq, Structural)]
pub enum Separator {
    /// `key: value`.
    Colon,
    /// `key = value`.
    Equals,
}

/// The quote character a [`Style`] renders string values (and, per
/// [`KeyStyle::Double`]/[`KeyStyle::Single`], quoted keys) with.
#[derive(Debug, Clone, Copy, PartialEq, Eq, Structural)]
pub enum Quote {
    /// `"value"`.
    Double,
    /// `'value'`.
    Single,
}

impl From<QuoteKind> for Quote {
    fn from(q: QuoteKind) -> (r: Quote) {
        match q {
            QuoteKind::Double => Quote::Double,
            QuoteKind::Single => Quote::Single,
        }
    }
}

impl vstd::std_specs::convert::FromSpecImpl<QuoteKind> for Quote {
    open spec fn obeys_from_spec() -> bool {
        true
    }

    open spec fn from_spec(q: QuoteKind) -> Quote {
        quote_of_kind(q)
    }
}

/// The value quote a lexed quote kind stands for.
pub open spec fn quote_of_kind(q: QuoteKind) -> Quote {
    match q {
        QuoteKind::Double => Quote::Double,
        QuoteKind::Single => Quote::Single,
    }
}

/// How a [`Style`] writes object keys.
#[derive(Debug, Clone, Copy, PartialEq, Eq, Structural)]
pub enum KeyStyle {
    /// Unquoted, e.g. `key: 1` -- used whenever the key text is a valid
    /// bare identifier; a key that doesn't qualify falls back to quoting
    /// even under this style.
    Bare,
    /// `"key": 1`.
    Double,
    /// `'key': 1`.
    Single,
}

/// The character a [`Style`]'s [`Indent`] is made of.
#[derive(Debug, Clone, Copy, PartialEq, Eq, Structural)]
pub enum IndentChar {
    /// U+0020 SPACE.
    Space,
    /// U+0009 CHARACTER TABULATION.
    Tab,
}

/// One level of indentation: a repeated character and a width.
#[derive(Debug, Clone, Copy, PartialEq, Eq, Structural)]
pub struct Indent {
    /// The character to repeat.
    pub ch: IndentChar,
    /// How many times to repeat it, per nesting level.
    pub width: usize,
}

/// The character an [`IndentChar`] stands for.
pub open spec fn indent_char(c: IndentChar) -> char {
    match c {
        IndentChar::Space => ' ',
        IndentChar::Tab => '\t',
    }
}

/// `n` copies of `c`.
pub open spec fn repeat_char(c: char, n: nat) -> Seq<char> {
    Seq::new(n, |_i: int| c)
}

/// The text of `depth` levels of `indent`.
pub open spec fn render_spec(indent: Indent, depth: nat) -> Seq<char> {
    repeat_char(indent_char(indent.ch), (indent.width * depth) as nat)
}

impl Indent {
    /// Renders the indentation for nesting level `depth` (0 = no
    /// indentation).
    pub fn render(&self, depth: usize) -> (r: String)
        ensures
            r@ == render_spec(*self, depth as nat),
    {
        let ch = match self.ch {
            IndentChar::Space => ' ',
            IndentChar::Tab => '\t',
        };
        let mut s = String::new();
        let ghost c = indent_char(self.ch);
        let mut level: usize = 0;
        while level < depth
            invariant
                level <= depth,
                ch == c,
                c == indent_char(self.ch),
                s@ == repeat_char(c, (self.width * level) as nat),
            decreases depth - level,
        {
            let mut k: usize = 0;
            while k < self.width
                invariant
                    k <= self.width,
                    level < depth,
                    ch == c,
                    s@ == repeat_char(c, (self.width * level + k) as nat),
                decreases self.width - k,
            {
                push_char(&mut s, ch);
                k += 1;
                assert(s@ =~= repeat_char(c, (self.width * level + k) as nat));
            }
            assert(self.width * level + self.width == self.width * (level + 1)) by (nonlinear_arith);
            level += 1;
        }
        s
    }
}

impl Default for Indent {
    /// Two spaces per level.
    fn default() -> (r: Indent)
        ensures
            r == default_indent(),
    {
        Indent { ch: IndentChar::Space, width: 2 }
    }
}

/// The default indentation: two spaces per level.
pub open spec fn default_indent() -> Indent {
    Indent { ch: IndentChar::Space, width: 2 }
}

/// Detected (or defaulted) layout choices for a document.
///
/// Every field is `Option`-typed and first-match latched: parsing sets
/// each one the first time it observes the corresponding source
/// construct, and never touches it again. A field left `None` falls back
/// to a fixed default; use the getter methods (not the fields directly)
/// to get that resolved value. Construct one by hand (or start from
/// [`Style::default`]) and pass it to `Document::set_style` to override
/// what was detected.
#[derive(Debug, Clone, Copy, PartialEq, Eq)]
pub struct Style {
    /// See [`Style::separator`]. Defaults to [`Separator::Colon`].
    pub separator: Option<Separator>,
    /// See [`Style::value_quote`]. Defaults to [`Quote::Double`].
    pub value_quote: Option<Quote>,
    /// See [`Style::key_style`]. Defaults to [`KeyStyle::Bare`].
    pub key_style: Option<KeyStyle>,
    /// `true`: always write an explicit `,`. `false`: omit it across a
    /// newline. Defaults to `true`.
    pub commas: Option<bool>,
    /// Whether to write a trailing comma before the closing bracket.
    /// Defaults to `false`.
    pub trailing_comma: Option<bool>,
    /// No reliable first-match source; always falls back to the default
    /// (two spaces) unless set by hand.
    pub indent: Option<Indent>,
    /// Whether a multi-line string value is written using `|`-prefixed
    /// verbatim lines instead of an escaped quoted string. Defaults to
    /// `false`.
    pub verbatim_strings: Option<bool>,
}

impl Default for Style {
    /// Nothing observed yet: every field `None`.
    fn default() -> (r: Style)
        ensures
            r == empty_style(),
    {
        Style {
            separator: None,
            value_quote: None,
            key_style: None,
            commas: None,
            trailing_comma: None,
            indent: None,
            verbatim_strings: None,
        }
    }
}

/// A style with nothing observed.
pub open spec fn empty_style() -> Style {
    Style {
        separator: None,
        value_quote: None,
        key_style: None,
        commas: None,
        trailing_comma: None,
        indent: None,
        verbatim_strings: None,
    }
}

/// First-match latch: keep an existing observation, else take `x`.
pub open spec fn latch<T>(field: Option<T>, x: T) -> Option<T> {
    match field {
        Some(v) => Some(v),
        None => Some(x),
    }
}

/// The first observation of a style field is the one that stays: once a
/// field has been latched, later observations leave it as it is.
pub proof fn law_first_observation_wins<T>(field: Option<T>, x: T, y: T)
    ensures
        latch(field, x) is Some,
        latch(latch(field, x), y) == latch(field, x),
        field matches Some(v) ==> latch(field, x) == Some(v),
        field is None ==> latch(field, x) == Some(x),
{
}

impl Style {
    /// Effective separator: the observed one, else [`Separator::Colon`].
    pub open spec fn eff_separator(self) -> Separator {
        match self.separator {
            Some(s) => s,
            None => Separator::Colon,
        }
    }

    /// Effective value quote: the observed one, else [`Quote::Double`].
    pub open spec fn eff_value_quote(self) -> Quote {
        match self.value_quote {
            Some(q) => q,
            None => Quote::Double,
        }
    }

    /// Effective key style: the observed one, else [`KeyStyle::Bare`].
    pub open spec fn eff_key_style(self) -> KeyStyle {
        match self.key_style {
            Some(k) => k,
            None => KeyStyle::Bare,
        }
    }

    /// Effective comma choice: the observed one, else `true`.
    pub open spec fn eff_commas(self) -> bool {
        match self.commas {
            Some(c) => c,
            None => true,
        }
    }

    /// Effective trailing-comma choice: the observed one, else `false`.
    pub open spec fn eff_trailing_comma(self) -> bool {
        match self.trailing_comma {
            Some(t) => t,
            None => false,
        }
    }

    /// Effective indentation: the set one, else two spaces.
    pub open spec fn eff_indent(self) -> Indent {
        match self.indent {
            Some(i) => i,
            None => default_indent(),
        }
    }

    /// Effective verbatim choice: the observed one, else `false`.
    pub open spec fn eff_verbatim_strings(self) -> bool {
        match self.verbatim_strings {
            Some(v) => v,
            None => false,
        }
    }

    /// The key/value separator to render with, resolved to its default
    /// ([`Separator::Colon`]) if never observed.
    pub fn separator(&self) -> (r: Separator)
        ensures
            r == self.eff_separator(),
    {
        match self.separator {
            Some(s) => s,
            None => Separator::Colon,
        }
    }

    /// The quote character for string values, resolved to its default
    /// ([`Quote::Double`]) if never observed.
    pub fn value_quote(&self) -> (r: Quote)
        ensures
            r == self.eff_value_quote(),
    {
        match self.value_quote {
            Some(q) => q,
            None => Quote::Double,
        }
    }

    /// How to render object keys, resolved to its default
    /// ([`KeyStyle::Bare`]) if never observed.
    pub fn key_style(&self) -> (r: KeyStyle)
        ensures
            r == self.eff_key_style(),
    {
        match self.key_style {
            Some(k) => k,
            None => KeyStyle::Bare,
        }
    }

    /// Whether to write explicit commas between entries/items, resolved
    /// to its default (`true`) if never observed.
    pub fn commas(&self) -> (r: bool)
        ensures
            r == self.eff_commas(),
    {
        match self.commas {
            Some(c) => c,
            None => true,
        }
    }

    /// Whether to write a trailing comma before a closing bracket,
    /// resolved to its default (`false`) if never observed.
    pub fn trailing_comma(&self) -> (r: bool)
        ensures
            r == self.eff_trailing_comma(),
    {
        match self.trailing_comma {
            Some(t) => t,
            None => false,
        }
    }

    /// The indentation to render with, resolved to its default (two
    /// spaces) if never set.
    pub fn indent(&self) -> (r: Indent)
        ensures
            r == self.eff_indent(),
    {
        match self.indent {
            Some(i) => i,
            None => Indent::default(),
        }
    }

    /// Whether to render multi-line string values as `|`-prefixed
    /// verbatim lines, resolved to its default (`false`) if never
    /// observed.
    pub fn verbatim_strings(&self) -> (r: bool)
        ensures
            r == self.eff_verbatim_strings(),
    {
        match self.verbatim_strings {
            Some(v) => v,
            None => false,
        }
    }

    pub(crate) fn note_separator(&mut self, s: Separator)
        ensures
            *final(self) == (Style { separator: latch(old(self).separator, s), ..*old(self) }),
    {
        if self.separator.is_none() {
            self.separator = Some(s);
        }
    }

    pub(crate) fn note_value_quote(&mut self, q: Quote)
        ensures
            *final(self) == (Style { value_quote: latch(old(self).value_quote, q), ..*old(self) }),
    {
        if self.value_quote.is_none() {
            self.value_quote = Some(q);
        }
    }

    pub(crate) fn note_key_style(&mut self, k: KeyStyle)
        ensures
            *final(self) == (Style { key_style: latch(old(self).key_style, k), ..*old(self) }),
    {
        if self.key_style.is_none() {
            self.key_style = Some(k);
        }
    }

    pub(crate) fn note_commas(&mut self, c: bool)
        ensures
            *final(self) == (Style { commas: latch(old(self).commas, c), ..*old(self) }),
    {
        if self.commas.is_none() {
            self.commas = Some(c);
        }
    }

    pub(crate) fn note_trailing_comma(&mut self, t: bool)
        ensures
            *final(self) == (Style { trailing_comma: latch(old(self).trailing_comma, t), ..*old(self) }),
    {
        if self.trailing_comma.is_none() {
            self.trailing_comma = Some(t);
        }
    }

    pub(crate) fn note_verbatim_strings(&mut self, v: bool)
        ensures
            *final(self) == (Style { verbatim_strings: latch(old(self).verbatim_strings, v), ..*old(self) }),
    {
        if self.verbatim_strings.is_none() {
            self.verbatim_strings = Some(v);
        }
    }
}

} // verus!
