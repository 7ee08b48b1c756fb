//! The comment line-anchor pass.
//!
//! A comment that is not the first thing on its source line is moved into
//! the trivia slot belonging to the first token of that line; a line whose
//! first token is a closing bracket inherits the anchor of the line the
//! matching opening bracket was on. This runs once, on the flat lexer
//! output, before the recursive-descent parser ever sees a token -- by the
//! time the parser runs, every comment left "in place" is already on its
//! own line.

use vstd::prelude::*;
use crate::lexer::{is_line_break, items_view, lemma_line_end, lex_from, lex_spec, lex_step, line_end, opt_seq, Item, ItemM, RealTok};
use vstd::multiset::Multiset;
use crate::text::{chars_of, is_ws, is_ws_spec, push_char};

verus! {

/// The resolved trivia, indexed by real token.
pub struct TriviaInfo {
    /// `prefixes[i]` is the trivia to attach before real token `i`;
    /// `prefixes[n]` (`n` = number of real tokens) is the document suffix.
    pub prefixes: Vec<String>,
    /// `blank_line[i]`: does the gap before real token `i` (or, at index
    /// `n`, the trailing gap before EOF) contain an empty line -- two
    /// line breaks with nothing but whitespace between them? Used to
    /// resolve the verbatim-fragment merge ambiguity.
    pub blank_line: Vec<bool>,
    /// `had_newline[i]`: did at least one line break occur in that same
    /// gap? Used to check the "comma or newline" value-separator rule.
    pub had_newline: Vec<bool>,
}

/// Model of [`TriviaInfo`].
pub struct TriviaM {
    pub prefixes: Seq<Seq<char>>,
    pub blank_line: Seq<bool>,
    pub had_newline: Seq<bool>,
}

impl View for TriviaInfo {
    type V = TriviaM;

    open spec fn view(&self) -> TriviaM {
        TriviaM {
            prefixes: strings_view(self.prefixes@),
            blank_line: self.blank_line@,
            had_newline: self.had_newline@,
        }
    }
}

/// The texts of a sequence of strings.
pub open spec fn strings_view(v: Seq<String>) -> Seq<Seq<char>> {
    v.map_values(|s: String| s@)
}

proof fn lemma_strings_view_update(v: Seq<String>, i: int, x: String)
    requires
        0 <= i < v.len(),
    ensures
        strings_view(v.update(i, x)) =~= strings_view(v).update(i, x@),
{
    assert forall|j: int| 0 <= j < v.len() implies #[trigger] strings_view(v.update(i, x))[j] == strings_view(v).update(i, x@)[j] by {
        if j == i {
        } else {
        }
    }
}

proof fn lemma_strings_view_push(v: Seq<String>, x: String)
    ensures
        strings_view(v.push(x)) =~= strings_view(v).push(x@),
{
    assert forall|j: int| 0 <= j < v.len() + 1 implies #[trigger] strings_view(v.push(x))[j] == strings_view(v).push(x@)[j] by {
        if j < v.len() {
        }
    }
}

/// The state of the line-anchor scan.
pub struct ScanState {
    pub prefixes: Seq<Seq<char>>,
    pub blank_line: Seq<bool>,
    pub had_newline: Seq<bool>,
    pub at_line_start: bool,
    pub line_anchor: int,
    pub stack: Seq<int>,
    pub gap_index: int,
    pub last_was_newline: bool,
}

pub open spec fn is_real(it: ItemM) -> bool {
    it is Real
}

/// Number of real tokens among `items`.
pub open spec fn count_real(items: Seq<ItemM>) -> int
    decreases items.len(),
{
    if items.len() == 0 {
        0
    } else {
        count_real(items.drop_last()) + if is_real(items.last()) { 1int } else { 0int }
    }
}

pub open spec fn initial_state(n: int) -> ScanState {
    ScanState {
        prefixes: Seq::new((n + 1) as nat, |_i: int| Seq::<char>::empty()),
        blank_line: Seq::new((n + 1) as nat, |_i: int| false),
        had_newline: Seq::new((n + 1) as nat, |_i: int| false),
        at_line_start: true,
        line_anchor: 0,
        stack: Seq::empty(),
        gap_index: 0,
        last_was_newline: false,
    }
}

/// One item of the scan.
pub open spec fn scan_step(st: ScanState, it: ItemM) -> ScanState {
    match it {
        ItemM::Newline => ScanState {
            blank_line: if st.last_was_newline { st.blank_line.update(st.gap_index, true) } else { st.blank_line },
            had_newline: st.had_newline.update(st.gap_index, true),
            last_was_newline: true,
            at_line_start: true,
            ..st
        },
        ItemM::Comment(text) => {
            let anchor = if st.at_line_start { st.gap_index } else { st.line_anchor };
            ScanState {
                prefixes: st.prefixes.update(anchor, st.prefixes[anchor] + seq!['\n'] + text),
                last_was_newline: false,
                at_line_start: false,
                line_anchor: anchor,
                ..st
            }
        },
        ItemM::Real(tok, _, _) => {
            let is_close = tok is RBrace || tok is RBracket;
            let is_open = tok is LBrace || tok is LBracket;
            let anchor = if st.at_line_start {
                if is_close {
                    if st.stack.len() == 0 { 0 } else { st.stack.last() }
                } else {
                    st.gap_index
                }
            } else {
                st.line_anchor
            };
            ScanState {
                last_was_newline: false,
                at_line_start: false,
                line_anchor: anchor,
                stack: if is_open {
                    st.stack.push(anchor)
                } else if is_close && st.stack.len() > 0 {
                    st.stack.drop_last()
                } else {
                    st.stack
                },
                gap_index: st.gap_index + 1,
                ..st
            }
        },
    }
}

/// The scan state after the first `k` items.
pub open spec fn scan_upto(items: Seq<ItemM>, k: int) -> ScanState
    decreases k,
{
    if k <= 0 {
        initial_state(count_real(items))
    } else {
        scan_step(scan_upto(items, k - 1), items[k - 1])
    }
}

/// The resolved trivia of a lexed item stream.
pub open spec fn resolve_spec(items: Seq<ItemM>) -> TriviaM {
    let st = scan_upto(items, items.len() as int);
    TriviaM { prefixes: st.prefixes, blank_line: st.blank_line, had_newline: st.had_newline }
}

pub proof fn lemma_count_real_take(items: Seq<ItemM>, k: int)
    requires
        0 <= k < items.len(),
    ensures
        count_real(items.take(k + 1)) == count_real(items.take(k)) + if is_real(items[k]) { 1int } else { 0int },
        count_real(items.take(k)) <= count_real(items.take(k + 1)),
{
    assert(items.take(k + 1).drop_last() =~= items.take(k));
}

pub proof fn lemma_count_real_bound(items: Seq<ItemM>, k: int)
    requires
        0 <= k <= items.len(),
    ensures
        0 <= count_real(items.take(k)) <= count_real(items),
    decreases items.len() - k,
{
    if k == items.len() {
        assert(items.take(k) =~= items);
        lemma_count_real_nonneg(items);
    } else {
        lemma_count_real_take(items, k);
        lemma_count_real_bound(items, k + 1);
        lemma_count_real_nonneg(items.take(k));
    }
}

pub proof fn lemma_count_real_nonneg(items: Seq<ItemM>)
    ensures
        count_real(items) >= 0,
    decreases items.len(),
{
    if items.len() > 0 {
        lemma_count_real_nonneg(items.drop_last());
    }
}

/// Resolves every comment onto the trivia slot of the token that starts
/// its line (see the module documentation).
pub fn resolve(items: &Vec<Item>) -> (r: TriviaInfo)
    ensures
        r@ == resolve_spec(items_view(items@)),
{
    let ghost its = items_view(items@);
    let mut n: usize = 0;
    let mut k: usize = 0;
    while k < items.len()
        invariant
            k <= items@.len(),
            its == items_view(items@),
            n as int == count_real(its.take(k as int)),
            n <= k,
        decreases items@.len() - k,
    {
        proof { lemma_count_real_take(its, k as int); }
        if let Item::Real(_, _) = &items[k] {
            n += 1;
        }
        k += 1;
    }
    assert(its.take(items@.len() as int) =~= its);
    let ghost init = initial_state(n as int);

    let mut prefixes: Vec<String> = Vec::new();
    let mut blank_line: Vec<bool> = Vec::new();
    let mut had_newline: Vec<bool> = Vec::new();
    let mut k: usize = 0;
    while k < n
        invariant
            k <= n,
            n <= items@.len(),
            strings_view(prefixes@) =~= init.prefixes.take(k as int),
            blank_line@ =~= init.blank_line.take(k as int),
            had_newline@ =~= init.had_newline.take(k as int),
            init == initial_state(n as int),
        decreases n - k,
    {
        let ghost before = prefixes@;
        let e = String::new();
        proof { lemma_strings_view_push(before, e); }
        prefixes.push(e);
        blank_line.push(false);
        had_newline.push(false);
        k += 1;
        assert(strings_view(prefixes@) =~= init.prefixes.take(k as int));
    }
    let ghost before = prefixes@;
    let e = String::new();
    proof { lemma_strings_view_push(before, e); }
    prefixes.push(e);
    blank_line.push(false);
    had_newline.push(false);
    assert(strings_view(prefixes@) =~= init.prefixes);
    assert(blank_line@ =~= init.blank_line);
    assert(had_newline@ =~= init.had_newline);

    let mut at_line_start = true;
    let mut line_anchor: usize = 0;
    let mut stack: Vec<usize> = Vec::new();
    let mut gap_index: usize = 0;
    let mut last_was_newline = false;

    let mut k: usize = 0;
    while k < items.len()
        invariant
            k <= items@.len(),
            its == items_view(items@),
            n as int == count_real(its),
            ({
                let st = scan_upto(its, k as int);
                &&& strings_view(prefixes@) == st.prefixes
                &&& blank_line@ == st.blank_line
                &&& had_newline@ == st.had_newline
                &&& at_line_start == st.at_line_start
                &&& line_anchor as int == st.line_anchor
                &&& stack@.map_values(|x: usize| x as int) == st.stack
                &&& gap_index as int == st.gap_index
                &&& last_was_newline == st.last_was_newline
            }),
            prefixes@.len() == n + 1,
            blank_line@.len() == n + 1,
            had_newline@.len() == n + 1,
            gap_index as int == count_real(its.take(k as int)),
            line_anchor <= gap_index,
            forall|j: int| 0 <= j < stack@.len() ==> stack@[j] <= gap_index,
        decreases items@.len() - k,
    {
        proof {
            lemma_count_real_take(its, k as int);
            lemma_count_real_bound(its, k + 1);
        }
        let ghost st = scan_upto(its, k as int);
        assert(its[k as int] == items@[k as int]@);
        match &items[k] {
            Item::Newline => {
                if last_was_newline {
                    blank_line.set(gap_index, true);
                }
                had_newline.set(gap_index, true);
                last_was_newline = true;
                at_line_start = true;
            },
            Item::Comment(text) => {
                last_was_newline = false;
                if at_line_start {
                    line_anchor = gap_index;
                    at_line_start = false;
                }
                let ghost old_v = prefixes@;
                let ghost old_p = strings_view(prefixes@);
                let mut slot = prefixes[line_anchor].clone();
                push_char(&mut slot, '\n');
                slot.append(text.as_str());
                assert(old_p[line_anchor as int] == old_v[line_anchor as int]@);
                assert(slot@ =~= old_p[line_anchor as int] + seq!['\n'] + text@);
                proof { lemma_strings_view_update(old_v, line_anchor as int, slot); }
                prefixes.set(line_anchor, slot);
                assert(strings_view(prefixes@) =~= old_p.update(
                    line_anchor as int,
                    old_p[line_anchor as int] + seq!['\n'] + text@,
                ));
            },
            Item::Real(tok, _) => {
                last_was_newline = false;
                let is_close = match tok {
                    RealTok::RBrace | RealTok::RBracket => true,
                    _ => false,
                };
                let is_open = match tok {
                    RealTok::LBrace | RealTok::LBracket => true,
                    _ => false,
                };
                if at_line_start {
                    line_anchor = if is_close {
                        if stack.len() == 0 { 0 } else { stack[stack.len() - 1] }
                    } else {
                        gap_index
                    };
                    at_line_start = false;
                }
                if is_open {
                    stack.push(line_anchor);
                } else if is_close {
                    stack.pop();
                }
                gap_index += 1;
                assert(stack@.map_values(|x: usize| x as int) =~= scan_step(st, its[k as int]).stack);
            },
        }
        k += 1;
    }
    TriviaInfo { prefixes, blank_line, had_newline }
}

/// The resolved trivia has one slot per real token, plus the suffix.
pub proof fn lemma_resolve_lens(items: Seq<ItemM>)
    ensures
        resolve_spec(items).prefixes.len() == count_real(items) + 1,
        resolve_spec(items).blank_line.len() == count_real(items) + 1,
        resolve_spec(items).had_newline.len() == count_real(items) + 1,
{
    lemma_count_real_nonneg(items);
    lemma_scan_lens(items, items.len() as int);
}

proof fn lemma_scan_lens(items: Seq<ItemM>, k: int)
    requires
        0 <= k <= items.len(),
    ensures
        scan_upto(items, k).prefixes.len() == count_real(items) + 1,
        scan_upto(items, k).blank_line.len() == count_real(items) + 1,
        scan_upto(items, k).had_newline.len() == count_real(items) + 1,
        scan_upto(items, k).gap_index == count_real(items.take(k)),
        0 <= scan_upto(items, k).line_anchor <= scan_upto(items, k).gap_index,
        forall|j: int| 0 <= j < scan_upto(items, k).stack.len()
            ==> 0 <= #[trigger] scan_upto(items, k).stack[j] <= scan_upto(items, k).gap_index,
    decreases k,
{
    lemma_count_real_nonneg(items);
    if k > 0 {
        lemma_scan_lens(items, k - 1);
        lemma_count_real_take(items, k - 1);
        lemma_count_real_bound(items, k);
    } else {
        assert(items.take(0) =~= Seq::<ItemM>::empty());
    }
}

/// Text with nothing but whitespace and `#`-comments, from `s[i]` on.
pub open spec fn valid_prefix_from(s: Seq<char>, i: int) -> bool
    decreases s.len() + 1 - i,
{
    if i < 0 || i >= s.len() {
        true
    } else if s[i] == '#' {
        let e = line_end(s, i + 1);
        if i < e <= s.len() {
            valid_prefix_from(s, e + 1)
        } else {
            true
        }
    } else if !is_ws_spec(s[i]) {
        false
    } else {
        valid_prefix_from(s, i + 1)
    }
}

/// Whether `text` is valid `Node` prefix content: only whitespace and
/// `#`-comments running to end of line.
pub open spec fn is_valid_prefix_spec(text: Seq<char>) -> bool {
    valid_prefix_from(text, 0)
}

/// Whether `text` is valid `Node` prefix content: only whitespace and
/// `#`-comments running to end of line.
pub fn is_valid_prefix(text: &str) -> (r: bool)
    ensures
        r == is_valid_prefix_spec(text@),
{
    let cs = chars_of(text);
    let mut i: usize = 0;
    while i < cs.len()
        invariant
            i <= cs@.len() + 1,
            cs@ == text@,
            valid_prefix_from(cs@, i as int) == valid_prefix_from(cs@, 0),
        decreases cs@.len() + 1 - i,
    {
        let c = cs[i];
        if c == '#' {
            let mut j = i + 1;
            while j < cs.len() && cs[j] != '\n' && cs[j] != '\r'
                invariant
                    i < j <= cs@.len(),
                    line_end(cs@, j as int) == line_end(cs@, i + 1),
                decreases cs@.len() - j,
            {
                j += 1;
            }
            proof { lemma_line_end(cs@, i + 1); }
            if j >= cs.len() {
                assert(line_end(cs@, j as int) == j);
                assert(valid_prefix_from(cs@, (j + 1) as int));
                assert(valid_prefix_from(cs@, i as int) == valid_prefix_from(cs@, (j + 1) as int));
                return true;
            }
            assert(line_end(cs@, j as int) == j);
            i = j + 1;
        } else if !is_ws(c) {
            return false;
        } else {
            i += 1;
        }
    }
    true
}

// ---------------------------------------------------------------------
// The trivia this pass builds is valid prefix content.

/// A comment as the lexer produces it: `#` and the rest of its line.
pub open spec fn is_comment_text(t: Seq<char>) -> bool {
    &&& t.len() > 0
    &&& t[0] == '#'
    &&& forall|k: int| 0 <= k < t.len() ==> !is_line_break(#[trigger] t[k])
}

/// Trivia as the line-anchor pass builds it: a run of comment lines, each
/// a line break followed by a `#` comment.
pub open spec fn comment_lines(p: Seq<char>) -> bool
    decreases p.len(),
{
    if p.len() == 0 {
        true
    } else if p.len() >= 2 && p[0] == '\n' && p[1] == '#' {
        let e = line_end(p, 1);
        if 1 < e <= p.len() {
            comment_lines(p.subrange(e, p.len() as int))
        } else {
            false
        }
    } else {
        false
    }
}

proof fn lemma_line_end_suffix(p: Seq<char>, e: int, k: int)
    requires
        0 <= e <= p.len(),
        0 <= k <= p.len() - e,
    ensures
        line_end(p, e + k) == e + line_end(p.subrange(e, p.len() as int), k),
    decreases p.len() - e - k,
{
    let r = p.subrange(e, p.len() as int);
    if e + k < p.len() {
        assert(r[k] == p[e + k]);
        if !is_line_break(p[e + k]) {
            lemma_line_end_suffix(p, e, k + 1);
        }
    }
}

proof fn lemma_valid_suffix(p: Seq<char>, e: int, k: int)
    requires
        0 <= e <= p.len(),
        0 <= k,
    ensures
        valid_prefix_from(p, e + k) == valid_prefix_from(p.subrange(e, p.len() as int), k),
    decreases p.len() + 1 - e - k,
{
    let r = p.subrange(e, p.len() as int);
    if e + k < p.len() {
        assert(r[k] == p[e + k]);
        if p[e + k] == '#' {
            lemma_line_end_suffix(p, e, k + 1);
            lemma_line_end(r, k + 1);
            let le = line_end(r, k + 1);
            if k < le <= r.len() {
                lemma_valid_suffix(p, e, le + 1);
            }
        } else if is_ws_spec(p[e + k]) {
            lemma_valid_suffix(p, e, k + 1);
        }
    }
}

proof fn lemma_comment_lines_head(p: Seq<char>)
    requires
        comment_lines(p),
        p.len() > 0,
    ensures
        p.len() >= 2,
        p[0] == '\n',
        p[1] == '#',
        1 < line_end(p, 1) <= p.len(),
        comment_lines(p.subrange(line_end(p, 1), p.len() as int)),
{
}

proof fn lemma_comment_lines_valid(p: Seq<char>)
    requires
        comment_lines(p),
    ensures
        valid_prefix_from(p, 0),
    decreases p.len(),
{
    if p.len() > 0 {
        lemma_comment_lines_head(p);
        let e = line_end(p, 1);
        let r = p.subrange(e, p.len() as int);
        assert(is_ws_spec(p[0]));
        assert(line_end(p, 2) == e);
        assert(valid_prefix_from(p, 0) == valid_prefix_from(p, 1));
        assert(valid_prefix_from(p, 1) == valid_prefix_from(p, e + 1));
        if e < p.len() {
            lemma_comment_lines_valid(r);
            lemma_comment_lines_head(r);
            lemma_valid_suffix(p, e, 1);
            assert(is_ws_spec(r[0]));
            assert(valid_prefix_from(r, 0) == valid_prefix_from(r, 1));
        }
    }
}

/// Comment-line trivia is valid prefix content.
pub proof fn lemma_comment_lines_valid_prefix(p: Seq<char>)
    requires
        comment_lines(p),
    ensures
        is_valid_prefix_spec(p),
{
    lemma_comment_lines_valid(p);
}

proof fn lemma_line_end_concat(a: Seq<char>, b: Seq<char>, j: int)
    requires
        0 <= j <= a.len(),
    ensures
        line_end(a, j) < a.len() ==> line_end(a + b, j) == line_end(a, j),
        line_end(a, j) == a.len() && (b.len() == 0 || is_line_break(b[0])) ==> line_end(a + b, j) == a.len(),
    decreases a.len() - j,
{
    if j < a.len() {
        assert((a + b)[j] == a[j]);
        if !is_line_break(a[j]) {
            lemma_line_end_concat(a, b, j + 1);
        }
    } else if b.len() > 0 {
        assert((a + b)[j] == b[0]);
    }
}

/// Comment-line trivia concatenates.
pub proof fn lemma_comment_lines_concat(a: Seq<char>, b: Seq<char>)
    requires
        comment_lines(a),
        comment_lines(b),
    ensures
        comment_lines(a + b),
    decreases a.len(),
{
    if a.len() == 0 {
        assert(a + b =~= b);
    } else {
        let e = line_end(a, 1);
        let r = a.subrange(e, a.len() as int);
        lemma_line_end(a, 1);
        lemma_line_end_concat(a, b, 1);
        assert((a + b)[0] == a[0] && (a + b)[1] == a[1]);
        if e < a.len() {
            lemma_comment_lines_concat(r, b);
            assert((a + b).subrange(e, (a + b).len() as int) =~= r + b);
        } else {
            if b.len() > 0 {
                assert(b[0] == '\n');
            }
            assert((a + b).subrange(e, (a + b).len() as int) =~= b);
        }
    }
}

/// One comment on a line of its own.
pub proof fn lemma_comment_line(t: Seq<char>)
    requires
        is_comment_text(t),
    ensures
        comment_lines(seq!['\n'] + t),
{
    let p = seq!['\n'] + t;
    assert forall|k: int| 1 <= k < p.len() implies !is_line_break(#[trigger] p[k]) by {
        assert(p[k] == t[k - 1]);
    }
    lemma_line_end_all(p, 1);
    assert(p[0] == '\n' && p[1] == t[0]);
    assert(p.subrange(p.len() as int, p.len() as int) =~= Seq::<char>::empty());
    assert(comment_lines(Seq::<char>::empty()));
}

proof fn lemma_line_end_all(p: Seq<char>, j: int)
    requires
        0 <= j <= p.len(),
        forall|k: int| j <= k < p.len() ==> !is_line_break(#[trigger] p[k]),
    ensures
        line_end(p, j) == p.len(),
    decreases p.len() - j,
{
    if j < p.len() {
        lemma_line_end_all(p, j + 1);
    }
}

/// Every comment among `items` is comment text.
pub open spec fn comments_well_formed(items: Seq<ItemM>) -> bool {
    forall|k: int| 0 <= k < items.len() ==> (#[trigger] items[k] matches ItemM::Comment(t) ==> is_comment_text(t))
}

/// Every trivia string the line-anchor pass builds is a run of comment
/// lines.
pub proof fn lemma_resolve_comment_lines(items: Seq<ItemM>)
    requires
        comments_well_formed(items),
    ensures
        forall|j: int| 0 <= j < resolve_spec(items).prefixes.len() ==> comment_lines(#[trigger] resolve_spec(items).prefixes[j]),
{
    lemma_scan_comment_lines(items, items.len() as int);
}

proof fn lemma_scan_comment_lines(items: Seq<ItemM>, k: int)
    requires
        0 <= k <= items.len(),
        comments_well_formed(items),
    ensures
        forall|j: int| 0 <= j < scan_upto(items, k).prefixes.len() ==> comment_lines(#[trigger] scan_upto(items, k).prefixes[j]),
    decreases k,
{
    if k == 0 {
        lemma_count_real_nonneg(items);
        assert forall|j: int| 0 <= j < scan_upto(items, k).prefixes.len() implies comment_lines(
            #[trigger] scan_upto(items, k).prefixes[j],
        ) by {
            assert(scan_upto(items, k).prefixes[j] == Seq::<char>::empty());
        }
    } else {
        lemma_scan_comment_lines(items, k - 1);
        lemma_scan_lens(items, k - 1);
        lemma_count_real_bound(items, k - 1);
        let st = scan_upto(items, k - 1);
        let it = items[k - 1];
        match it {
            ItemM::Comment(t) => {
                assert(is_comment_text(t));
                let anchor = if st.at_line_start { st.gap_index } else { st.line_anchor };
                assert(0 <= anchor < st.prefixes.len());
                lemma_comment_line(t);
                lemma_comment_lines_concat(st.prefixes[anchor], seq!['\n'] + t);
                assert(st.prefixes[anchor] + seq!['\n'] + t =~= st.prefixes[anchor] + (seq!['\n'] + t));
            },
            _ => {},
        }
    }
}

/// The lexer produces only well-formed comments.
pub proof fn lemma_lex_comments(s: Seq<char>, i: int)
    requires
        0 <= i <= s.len(),
    ensures
        lex_from(s, i) matches Ok(items) ==> comments_well_formed(items),
    decreases s.len() - i,
{
    if i < s.len() {
        match lex_step(s, i) {
            Ok((it, j)) => if i < j <= s.len() {
                lemma_lex_comments(s, j);
                if let Ok(rest) = lex_from(s, j) {
                    let items = opt_seq(it) + rest;
                    assert(lex_from(s, i) == Ok::<Seq<ItemM>, crate::model::ErrM>(items));
                    if s[i] == '#' {
                        let e = line_end(s, i + 1);
                        lemma_line_end(s, i + 1);
                        let t = s.subrange(i, e);
                        assert(it == Some(ItemM::Comment(t)));
                        assert(is_comment_text(t)) by {
                            assert forall|k: int| 0 <= k < t.len() implies !is_line_break(#[trigger] t[k]) by {
                                assert(t[k] == s[i + k]);
                            }
                        }
                    } else {
                        assert(!(it matches Some(ItemM::Comment(_))));
                    }
                    assert forall|k: int| 0 <= k < items.len() implies (#[trigger] items[k] matches ItemM::Comment(t)
                        ==> is_comment_text(t)) by {
                        if k >= opt_seq(it).len() {
                            assert(items[k] == rest[k - opt_seq(it).len()]);
                        }
                    }
                }
            },
            Err(_) => {},
        }
    }
}

// ---------------------------------------------------------------------
// Valid prefix content concatenates.

proof fn lemma_line_end_all_concat(a: Seq<char>, b: Seq<char>, j: int)
    requires
        0 <= j <= a.len(),
        line_end(a, j) == a.len(),
    ensures
        line_end(a + b, j) == a.len() + line_end(b, 0),
    decreases a.len() - j,
{
    if j < a.len() {
        assert((a + b)[j] == a[j]);
        lemma_line_end_all_concat(a, b, j + 1);
    } else {
        lemma_line_end_suffix(a + b, a.len() as int, 0);
        assert((a + b).subrange(a.len() as int, (a + b).len() as int) =~= b);
    }
}

/// A valid scan from `k` passes the end of the line it is on.
proof fn lemma_valid_past_line(b: Seq<char>, k: int)
    requires
        0 <= k <= b.len(),
        valid_prefix_from(b, k),
        k <= line_end(b, k),
    ensures
        valid_prefix_from(b, line_end(b, k) + 1),
    decreases b.len() - k,
{
    lemma_line_end(b, k);
    if k < b.len() {
        if is_line_break(b[k]) {
            assert(line_end(b, k) == k);
            assert(is_ws_spec(b[k]));
        } else if b[k] == '#' {
            assert(line_end(b, k) == line_end(b, k + 1));
            lemma_line_end(b, k + 1);
        } else {
            assert(is_ws_spec(b[k]));
            assert(line_end(b, k) == line_end(b, k + 1));
            lemma_line_end(b, k + 1);
            lemma_valid_past_line(b, k + 1);
        }
    }
}

proof fn lemma_valid_concat_from(a: Seq<char>, b: Seq<char>, i: int)
    requires
        0 <= i <= a.len(),
        valid_prefix_from(a, i),
        valid_prefix_from(b, 0),
    ensures
        valid_prefix_from(a + b, i),
    decreases a.len() - i,
{
    let ab = a + b;
    if i == a.len() {
        lemma_valid_suffix(ab, a.len() as int, 0);
        assert(ab.subrange(a.len() as int, ab.len() as int) =~= b);
    } else {
        assert(ab[i] == a[i]);
        if a[i] == '#' {
            lemma_line_end(a, i + 1);
            let ea = line_end(a, i + 1);
            if ea < a.len() {
                lemma_line_end_concat(a, b, i + 1);
                lemma_valid_concat_from(a, b, ea + 1);
            } else {
                lemma_line_end_all_concat(a, b, i + 1);
                lemma_line_end(b, 0);
                let eb = line_end(b, 0);
                lemma_valid_past_line(b, 0);
                lemma_valid_suffix(ab, a.len() as int, eb + 1);
                assert(ab.subrange(a.len() as int, ab.len() as int) =~= b);
            }
        } else {
            lemma_valid_concat_from(a, b, i + 1);
        }
    }
}

/// Two pieces of valid prefix content, one after the other, are valid
/// prefix content.
pub proof fn lemma_valid_prefix_concat(a: Seq<char>, b: Seq<char>)
    requires
        is_valid_prefix_spec(a),
        is_valid_prefix_spec(b),
    ensures
        is_valid_prefix_spec(a + b),
{
    lemma_valid_concat_from(a, b, 0);
}

// ---------------------------------------------------------------------
// Every comment lands in exactly one slot.

/// The comments of a run of comment lines, in order.
pub open spec fn comments_of(p: Seq<char>) -> Seq<Seq<char>>
    decreases p.len(),
{
    if p.len() >= 2 && p[0] == '\n' && p[1] == '#' {
        let e = line_end(p, 1);
        if 1 < e <= p.len() {
            seq![p.subrange(1, e)] + comments_of(p.subrange(e, p.len() as int))
        } else {
            Seq::empty()
        }
    } else {
        Seq::empty()
    }
}

/// The elements of `l`, counted.
pub open spec fn bag(l: Seq<Seq<char>>) -> Multiset<Seq<char>>
    decreases l.len(),
{
    if l.len() == 0 {
        Multiset::empty()
    } else {
        bag(l.drop_last()).insert(l.last())
    }
}

/// The comments all the slots `ps` hold, counted.
pub open spec fn slots_comments(ps: Seq<Seq<char>>) -> Multiset<Seq<char>>
    decreases ps.len(),
{
    if ps.len() == 0 {
        Multiset::empty()
    } else {
        slots_comments(ps.drop_last()).add(bag(comments_of(ps.last())))
    }
}

/// The comments among `items`, counted.
pub open spec fn item_comments(items: Seq<ItemM>) -> Multiset<Seq<char>>
    decreases items.len(),
{
    if items.len() == 0 {
        Multiset::empty()
    } else {
        match items.last() {
            ItemM::Comment(c) => item_comments(items.drop_last()).insert(c),
            _ => item_comments(items.drop_last()),
        }
    }
}

/// Appending a comment line to a run of comment lines appends its
/// comment.
proof fn lemma_comments_of_append(p: Seq<char>, t: Seq<char>)
    requires
        comment_lines(p),
        is_comment_text(t),
    ensures
        comments_of(p + seq!['\n'] + t) == comments_of(p).push(t),
    decreases p.len(),
{
    let q = p + seq!['\n'] + t;
    if p.len() == 0 {
        assert(q =~= seq!['\n'] + t);
        assert forall|k: int| 1 <= k < q.len() implies !is_line_break(#[trigger] q[k]) by {
            assert(q[k] == t[k - 1]);
        }
        crate::roundtrip::lemma_line_end_at(q, 1, q.len() as int);
        assert(q.subrange(1, q.len() as int) =~= t);
        assert(q.subrange(q.len() as int, q.len() as int) =~= Seq::<char>::empty());
        assert(comments_of(Seq::<char>::empty()) == Seq::<Seq<char>>::empty());
        assert(seq![t] =~= Seq::<Seq<char>>::empty().push(t));
    } else {
        let e = line_end(p, 1);
        lemma_line_end(p, 1);
        let rest = p.subrange(e, p.len() as int);
        assert(comment_lines(rest));
        assert forall|k: int| 1 <= k < e implies !is_line_break(#[trigger] q[k]) by {
            assert(q[k] == p[k]);
        }
        assert(is_line_break(q[e])) by {
            if e < p.len() {
                assert(rest[0] == '\n');
                assert(q[e] == p[e]);
            } else {
                assert(q[e] == '\n');
            }
        }
        crate::roundtrip::lemma_line_end_at(q, 1, e);
        assert(q.subrange(1, e) =~= p.subrange(1, e));
        assert(q.subrange(e, q.len() as int) =~= rest + seq!['\n'] + t);
        lemma_comments_of_append(rest, t);
        assert(seq![p.subrange(1, e)] + comments_of(rest).push(t) =~= (seq![p.subrange(1, e)] + comments_of(rest)).push(t));
    }
}

/// Slots that are all empty hold no comment.
proof fn lemma_slots_empty(ps: Seq<Seq<char>>)
    requires
        forall|j: int| 0 <= j < ps.len() ==> #[trigger] ps[j] == Seq::<char>::empty(),
    ensures
        slots_comments(ps) =~= Multiset::<Seq<char>>::empty(),
    decreases ps.len(),
{
    if ps.len() > 0 {
        lemma_slots_empty(ps.drop_last());
        assert(ps.last() == Seq::<char>::empty());
        assert(comments_of(Seq::<char>::empty()) == Seq::<Seq<char>>::empty());
    }
}

/// Adding a comment to one slot adds it to all the slots' comments.
proof fn lemma_slots_update(ps: Seq<Seq<char>>, i: int, x: Seq<char>, t: Seq<char>)
    requires
        0 <= i < ps.len(),
        comments_of(x) == comments_of(ps[i]).push(t),
    ensures
        slots_comments(ps.update(i, x)) =~= slots_comments(ps).insert(t),
    decreases ps.len(),
{
    let qs = ps.update(i, x);
    let l = comments_of(ps[i]);
    assert(bag(l.push(t)) == bag(l).insert(t)) by {
        assert(l.push(t).drop_last() =~= l);
    }
    if i == ps.len() - 1 {
        assert(qs.drop_last() =~= ps.drop_last());
        assert(qs.last() == x);
    } else {
        assert(qs.drop_last() =~= ps.drop_last().update(i, x));
        assert(qs.last() == ps.last());
        lemma_slots_update(ps.drop_last(), i, x, t);
    }
}

proof fn lemma_scan_comments(items: Seq<ItemM>, k: int)
    requires
        0 <= k <= items.len(),
        comments_well_formed(items),
    ensures
        slots_comments(scan_upto(items, k).prefixes) =~= item_comments(items.take(k)),
    decreases k,
{
    if k == 0 {
        lemma_count_real_nonneg(items);
        lemma_slots_empty(scan_upto(items, 0).prefixes);
        assert(items.take(0) =~= Seq::<ItemM>::empty());
    } else {
        lemma_scan_comments(items, k - 1);
        lemma_scan_lens(items, k - 1);
        lemma_count_real_bound(items, k - 1);
        lemma_scan_comment_lines(items, k - 1);
        let st = scan_upto(items, k - 1);
        let it = items[k - 1];
        assert(items.take(k).drop_last() =~= items.take(k - 1));
        assert(items.take(k).last() == it);
        match it {
            ItemM::Comment(t) => {
                assert(is_comment_text(t));
                let anchor = if st.at_line_start { st.gap_index } else { st.line_anchor };
                assert(0 <= anchor < st.prefixes.len());
                lemma_comments_of_append(st.prefixes[anchor], t);
                lemma_slots_update(st.prefixes, anchor, st.prefixes[anchor] + seq!['\n'] + t, t);
            },
            _ => {},
        }
    }
}

/// The line-anchor pass loses no comment and makes none up: every comment
/// the lexer finds lands in exactly one trivia slot (counted, the slots'
/// comments are the lexed ones), whichever slot its line anchors it to.
pub proof fn law_each_comment_lands_in_one_slot(s: Seq<char>)
    ensures
        lex_spec(s) matches Ok(items) ==> slots_comments(resolve_spec(items).prefixes) == item_comments(items),
{
    lemma_lex_comments(s, 0);
    if let Ok(items) = lex_spec(s) {
        lemma_scan_comments(items, items.len() as int);
        assert(items.take(items.len() as int) =~= items);
    }
}

/// The scan is at the start of a line exactly at the start and after a
/// line break.
proof fn lemma_scan_line_start(items: Seq<ItemM>, k: int)
    requires
        0 <= k <= items.len(),
    ensures
        scan_upto(items, k).at_line_start == (k == 0 || items[k - 1] is Newline),
{
}

/// A comment in a slot stays there for the rest of the scan.
proof fn lemma_scan_keeps(items: Seq<ItemM>, m: int, k: int, j: int, c: Seq<char>)
    requires
        0 <= m <= k <= items.len(),
        comments_well_formed(items),
        0 <= j < scan_upto(items, m).prefixes.len(),
        comments_of(scan_upto(items, m).prefixes[j]).contains(c),
    ensures
        comments_of(scan_upto(items, k).prefixes[j]).contains(c),
    decreases k - m,
{
    if k > m {
        lemma_scan_keeps(items, m, k - 1, j, c);
        lemma_scan_lens(items, k - 1);
        lemma_scan_lens(items, m);
        lemma_count_real_bound(items, k - 1);
        lemma_scan_comment_lines(items, k - 1);
        let st = scan_upto(items, k - 1);
        if let ItemM::Comment(t) = items[k - 1] {
            let anchor = if st.at_line_start { st.gap_index } else { st.line_anchor };
            if anchor == j {
                lemma_comments_of_append(st.prefixes[j], t);
                let l = comments_of(st.prefixes[j]);
                let i = choose|i: int| 0 <= i < l.len() && l[i] == c;
                assert(l.push(t)[i] == c);
            }
        }
    }
}

/// A comment that starts its line lands in the slot of the token after
/// it: the slot whose index is the number of real tokens before the
/// comment.
pub proof fn law_line_start_comment_lands_before_next_token(s: Seq<char>, m: int)
    ensures
        lex_spec(s) matches Ok(items) ==> (0 <= m < items.len() && items[m] is Comment && (m == 0 || items[m
            - 1] is Newline) ==> comments_of(resolve_spec(items).prefixes[count_real(items.take(m))]).contains(
            items[m]->Comment_0,
        )),
{
    lemma_lex_comments(s, 0);
    if let Ok(items) = lex_spec(s) {
        if 0 <= m < items.len() && items[m] is Comment && (m == 0 || items[m - 1] is Newline) {
            let c = items[m]->Comment_0;
            lemma_scan_line_start(items, m);
            lemma_scan_lens(items, m);
            lemma_count_real_bound(items, m);
            lemma_scan_comment_lines(items, m);
            let st = scan_upto(items, m);
            let g = st.gap_index;
            lemma_comments_of_append(st.prefixes[g], c);
            let l = comments_of(st.prefixes[g]);
            assert(l.push(c)[l.len() as int] == c);
            lemma_scan_lens(items, m + 1);
            lemma_scan_keeps(items, m + 1, items.len() as int, g, c);
        }
    }
}

} // verus!
