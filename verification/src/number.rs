//! Number literals as values: the parts of a literal
//! `-? int (. frac)? ([eE] [+-]? exp)?`, the decimal number it denotes,
//! and numeric (not textual) equality between two literals.

use vstd::prelude::*;
use vstd::arithmetic::power::{lemma_pow_adds, lemma_pow_increases, lemma_pow_positive, pow};
use crate::lexer::{
    at, digits_end, digits_end_exec, is_digit, is_digit_exec, lemma_digits_end, lemma_number_end, number_end,
};
use crate::text::{chars_of, str_eq};
use crate::lexer::{lex_from, lex_step, opt_seq, ItemM, TokM};
use crate::Number;

verus! {

/// The value of a decimal digit character.
pub open spec fn digit_value(c: char) -> int {
    c as int - '0' as int
}

/// The natural number a string of decimal digits spells.
pub open spec fn digits_value(ds: Seq<char>) -> int
    decreases ds.len(),
{
    if ds.len() == 0 {
        0
    } else {
        digits_value(ds.drop_last()) * 10 + digit_value(ds.last())
    }
}

/// `s` is a whole number literal.
pub open spec fn valid_literal(s: Seq<char>) -> bool {
    number_end(s, 0) == Ok::<int, crate::model::ErrM>(s.len() as int)
}

/// The literal starts with a minus sign.
pub open spec fn lit_neg(s: Seq<char>) -> bool {
    at(s, 0) == '-'
}

/// Start of the integer digits.
pub open spec fn int_start(s: Seq<char>) -> int {
    if lit_neg(s) { 1 } else { 0 }
}

/// End of the integer digits.
pub open spec fn int_end(s: Seq<char>) -> int {
    let i0 = int_start(s);
    if at(s, i0) == '0' { i0 + 1 } else { digits_end(s, i0 + 1) }
}

/// The literal has a fraction part.
pub open spec fn has_frac(s: Seq<char>) -> bool {
    at(s, int_end(s)) == '.'
}

/// End of the fraction digits (the end of the integer digits where there
/// are none).
pub open spec fn frac_end(s: Seq<char>) -> int {
    if has_frac(s) { digits_end(s, int_end(s) + 1) } else { int_end(s) }
}

/// The fraction digits.
pub open spec fn frac_digits(s: Seq<char>) -> Seq<char> {
    if has_frac(s) { s.subrange(int_end(s) + 1, frac_end(s)) } else { Seq::empty() }
}

/// The integer digits followed by the fraction digits.
pub open spec fn mantissa(s: Seq<char>) -> Seq<char> {
    s.subrange(int_start(s), int_end(s)) + frac_digits(s)
}

/// The literal has an exponent part.
pub open spec fn has_exp(s: Seq<char>) -> bool {
    at(s, frac_end(s)) == 'e' || at(s, frac_end(s)) == 'E'
}

/// Start of the exponent digits.
pub open spec fn exp_start(s: Seq<char>) -> int {
    let i2 = frac_end(s);
    if at(s, i2 + 1) == '+' || at(s, i2 + 1) == '-' { i2 + 2 } else { i2 + 1 }
}

/// The exponent written in the literal (0 where there is none).
pub open spec fn exp_value(s: Seq<char>) -> int {
    if has_exp(s) {
        let v = digits_value(s.subrange(exp_start(s), s.len() as int));
        if at(s, frac_end(s) + 1) == '-' { -v } else { v }
    } else {
        0
    }
}

/// The power of ten the mantissa is scaled by: the literal denotes
/// `±digits_value(mantissa(s)) * 10^scale(s)`.
pub open spec fn scale(s: Seq<char>) -> int {
    exp_value(s) - frac_digits(s).len()
}

/// `10^e`.
pub open spec fn ten_to(e: nat) -> int {
    pow(10, e)
}

/// Two valid literals denote the same decimal number: both zero (of
/// either sign), or the same sign and `m_a * 10^e_a == m_b * 10^e_b`.
pub open spec fn same_number(a: Seq<char>, b: Seq<char>) -> bool {
    let (ma, mb) = (digits_value(mantissa(a)), digits_value(mantissa(b)));
    let (ea, eb) = (scale(a), scale(b));
    ||| ma == 0 && mb == 0
    ||| lit_neg(a) == lit_neg(b) && (if ea >= eb {
        ma * ten_to((ea - eb) as nat) == mb
    } else {
        ma == mb * ten_to((eb - ea) as nat)
    })
}

/// Numeric equality of two literal texts: the same text, or two valid
/// literals that denote the same number.
pub open spec fn num_eq_spec(a: Seq<char>, b: Seq<char>) -> bool {
    a == b || (valid_literal(a) && valid_literal(b) && same_number(a, b))
}

// ---------------------------------------------------------------------
// Digit strings.

/// `n` zero digits.
pub open spec fn zeros(n: nat) -> Seq<char> {
    Seq::new(n, |_i: int| '0')
}

/// Every character of `s` is a decimal digit.
pub open spec fn all_digits(s: Seq<char>) -> bool {
    forall|k: int| 0 <= k < s.len() ==> is_digit(#[trigger] s[k])
}

/// The significant digits of a nonzero number: no leading or trailing
/// zero.
pub open spec fn is_sig(s: Seq<char>) -> bool {
    &&& s.len() > 0
    &&& all_digits(s)
    &&& s[0] != '0'
    &&& s.last() != '0'
}

proof fn lemma_ten_step(e: nat)
    ensures
        ten_to(e + 1) == 10 * ten_to(e),
        ten_to(e) > 0,
        ten_to(0) == 1,
{
    reveal(pow);
    lemma_pow_positive(10, e);
}

proof fn lemma_value_bounds(s: Seq<char>)
    requires
        all_digits(s),
    ensures
        0 <= digits_value(s) < ten_to(s.len()),
    decreases s.len(),
{
    lemma_ten_step(0);
    if s.len() > 0 {
        let t = s.drop_last();
        assert(all_digits(t)) by {
            assert forall|k: int| 0 <= k < t.len() implies is_digit(#[trigger] t[k]) by {
                assert(t[k] == s[k]);
            }
        }
        lemma_value_bounds(t);
        lemma_ten_step(t.len());
        assert(is_digit(s[s.len() - 1]));
    }
}

proof fn lemma_value_split(s: Seq<char>, k: int)
    requires
        0 <= k <= s.len(),
    ensures
        digits_value(s) == digits_value(s.subrange(0, k)) * ten_to((s.len() - k) as nat) + digits_value(
            s.subrange(k, s.len() as int),
        ),
    decreases s.len(),
{
    lemma_ten_step(0);
    if k == s.len() {
        assert(s.subrange(0, k) =~= s);
        assert(s.subrange(k, s.len() as int) =~= Seq::<char>::empty());
        assert(digits_value(s.subrange(k, s.len() as int)) == 0);
        assert(ten_to((s.len() - k) as nat) == 1);
        assert(digits_value(s) * 1 == digits_value(s));
    } else {
        let t = s.drop_last();
        lemma_value_split(t, k);
        assert(t.subrange(0, k) =~= s.subrange(0, k));
        let r = s.subrange(k, s.len() as int);
        assert(r.drop_last() =~= t.subrange(k, t.len() as int));
        assert(r.last() == s.last());
        let p = digits_value(s.subrange(0, k));
        let e = (t.len() - k) as nat;
        lemma_ten_step(e);
        assert(p * ten_to(e) * 10 == p * ten_to(e + 1)) by (nonlinear_arith)
            requires
                ten_to(e + 1) == 10 * ten_to(e),
        ;
        let rt = digits_value(t.subrange(k, t.len() as int));
        assert(digits_value(r) == rt * 10 + digit_value(s.last()));
        assert(digits_value(s) == digits_value(t) * 10 + digit_value(s.last()));
        assert(digits_value(t) == p * ten_to(e) + rt);
        assert((p * ten_to(e) + rt) * 10 == p * ten_to(e) * 10 + rt * 10) by (nonlinear_arith);
        assert(e + 1 == s.len() - k);
    }
}

proof fn lemma_zeros_value(n: nat)
    ensures
        digits_value(zeros(n)) == 0,
    decreases n,
{
    if n > 0 {
        assert(zeros(n).drop_last() =~= zeros((n - 1) as nat));
        lemma_zeros_value((n - 1) as nat);
    }
}

proof fn lemma_zeros_prefix(n: nat, s: Seq<char>)
    ensures
        digits_value(zeros(n) + s) == digits_value(s),
{
    let z = zeros(n) + s;
    lemma_value_split(z, n as int);
    assert(z.subrange(0, n as int) =~= zeros(n));
    assert(z.subrange(n as int, z.len() as int) =~= s);
    lemma_zeros_value(n);
}

proof fn lemma_last_digit(s: Seq<char>)
    requires
        s.len() > 0,
        all_digits(s),
    ensures
        digits_value(s) % 10 == digit_value(s.last()),
        digits_value(s) == digits_value(s.drop_last()) * 10 + digit_value(s.last()),
{
    let t = s.drop_last();
    let d = digit_value(s.last());
    assert(is_digit(s[s.len() - 1]));
    assert(all_digits(t)) by {
        assert forall|k: int| 0 <= k < t.len() implies is_digit(#[trigger] t[k]) by {
            assert(t[k] == s[k]);
        }
    }
    lemma_value_bounds(t);
    let x = digits_value(t);
    assert((x * 10 + d) % 10 == d) by (nonlinear_arith)
        requires
            0 <= d < 10,
            x >= 0,
    ;
}

proof fn lemma_value_injective(s1: Seq<char>, s2: Seq<char>)
    requires
        s1.len() == s2.len(),
        all_digits(s1),
        all_digits(s2),
        digits_value(s1) == digits_value(s2),
    ensures
        s1 == s2,
    decreases s1.len(),
{
    if s1.len() == 0 {
        assert(s1 =~= s2);
    } else {
        lemma_last_digit(s1);
        lemma_last_digit(s2);
        let (t1, t2) = (s1.drop_last(), s2.drop_last());
        assert(s1.last() == s2.last());
        assert(all_digits(t1)) by {
            assert forall|k: int| 0 <= k < t1.len() implies is_digit(#[trigger] t1[k]) by {
                assert(t1[k] == s1[k]);
            }
        }
        assert(all_digits(t2)) by {
            assert forall|k: int| 0 <= k < t2.len() implies is_digit(#[trigger] t2[k]) by {
                assert(t2[k] == s2[k]);
            }
        }
        lemma_value_injective(t1, t2);
        assert(s1 =~= t1.push(s1.last()));
        assert(s2 =~= t2.push(s2.last()));
    }
}

proof fn lemma_lead_bound(s: Seq<char>)
    requires
        s.len() > 0,
        all_digits(s),
        s[0] != '0',
    ensures
        digits_value(s) >= ten_to((s.len() - 1) as nat),
{
    lemma_value_split(s, 1);
    let h = s.subrange(0, 1);
    assert(h.drop_last() =~= Seq::<char>::empty());
    assert(h.last() == s[0]);
    assert(is_digit(s[0]));
    let r = s.subrange(1, s.len() as int);
    assert(all_digits(r)) by {
        assert forall|k: int| 0 <= k < r.len() implies is_digit(#[trigger] r[k]) by {
            assert(r[k] == s[k + 1]);
        }
    }
    lemma_value_bounds(r);
    let e = (s.len() - 1) as nat;
    lemma_ten_step(e);
    let d = digits_value(h);
    assert(d == digits_value(h.drop_last()) * 10 + digit_value(s[0]));
    assert(digits_value(h.drop_last()) == 0);
    assert(d >= 1);
    assert(d * ten_to(e) >= ten_to(e)) by (nonlinear_arith)
        requires
            d >= 1,
            ten_to(e) > 0,
    ;
}

/// A nonzero digit string `s` times a power of ten: the significant
/// digits and the exponent are determined by the value.
proof fn lemma_sig_unique(s1: Seq<char>, s2: Seq<char>, x: nat, y: nat)
    requires
        is_sig(s1),
        is_sig(s2),
        digits_value(s1) * ten_to(x) == digits_value(s2) * ten_to(y),
    ensures
        s1 == s2,
        x == y,
    decreases x + y,
{
    lemma_last_digit(s1);
    lemma_last_digit(s2);
    assert(is_digit(s1[s1.len() - 1]));
    assert(is_digit(s2[s2.len() - 1]));
    let (v1, v2) = (digits_value(s1), digits_value(s2));
    if x > 0 && y > 0 {
        lemma_ten_step((x - 1) as nat);
        lemma_ten_step((y - 1) as nat);
        let (a, b) = (ten_to((x - 1) as nat), ten_to((y - 1) as nat));
        assert(v1 * a == v2 * b) by (nonlinear_arith)
            requires
                v1 * (10 * a) == v2 * (10 * b),
        ;
        lemma_sig_unique(s1, s2, (x - 1) as nat, (y - 1) as nat);
    } else if x > 0 {
        // v2 == v1 * 10^x is a multiple of ten, but its last digit is not 0
        lemma_ten_step((x - 1) as nat);
        lemma_ten_step(0);
        let a = ten_to((x - 1) as nat);
        assert(v2 == (v1 * a) * 10) by (nonlinear_arith)
            requires
                v1 * (10 * a) == v2 * 1,
        ;
        assert(((v1 * a) * 10) % 10 == 0) by (nonlinear_arith);
    } else if y > 0 {
        lemma_ten_step((y - 1) as nat);
        lemma_ten_step(0);
        let b = ten_to((y - 1) as nat);
        assert(v1 == (v2 * b) * 10) by (nonlinear_arith)
            requires
                v1 * 1 == v2 * (10 * b),
        ;
        assert(((v2 * b) * 10) % 10 == 0) by (nonlinear_arith);
    } else {
        lemma_ten_step(0);
        assert(v1 == v2);
        lemma_value_bounds(s1);
        lemma_value_bounds(s2);
        lemma_lead_bound(s1);
        lemma_lead_bound(s2);
        if s1.len() < s2.len() {
            lemma_pow_increases(10, s1.len(), (s2.len() - 1) as nat);
        } else if s2.len() < s1.len() {
            lemma_pow_increases(10, s2.len(), (s1.len() - 1) as nat);
        }
        lemma_value_injective(s1, s2);
    }
}

// ---------------------------------------------------------------------
// Taking a literal apart.

/// Positions that split a valid literal into its parts.
struct Parts {
    neg: bool,
    i0: usize,
    i1: usize,
    frac: bool,
    i2: usize,
    exp: bool,
    exp_neg: bool,
    j: usize,
}

/// `p` holds the positions of the parts of the valid literal `s`.
spec fn parts_ok(s: Seq<char>, p: Parts) -> bool {
    &&& valid_literal(s)
    &&& p.neg == lit_neg(s)
    &&& p.i0 == int_start(s)
    &&& p.i1 == int_end(s)
    &&& p.frac == has_frac(s)
    &&& p.i2 == frac_end(s)
    &&& p.exp == has_exp(s)
    &&& p.i0 < p.i1 <= p.i2 <= s.len()
    &&& (p.frac ==> p.i1 + 1 < p.i2)
    &&& (!p.frac ==> p.i1 == p.i2)
    &&& all_digits(s.subrange(p.i0 as int, p.i1 as int))
    &&& all_digits(frac_digits(s))
    &&& p.j <= s.len()
    &&& all_digits(s.subrange(p.j as int, s.len() as int))
    &&& (if p.exp {
        &&& p.j == exp_start(s)
        &&& p.exp_neg == (at(s, frac_end(s) + 1) == '-')
        &&& exp_value(s) == if p.exp_neg {
            -digits_value(s.subrange(p.j as int, s.len() as int))
        } else {
            digits_value(s.subrange(p.j as int, s.len() as int))
        }
    } else {
        &&& p.j == s.len()
        &&& !p.exp_neg
        &&& exp_value(s) == 0
    })
}

/// The length of the mantissa.
spec fn mant_len(p: Parts) -> int {
    (p.i1 - p.i0) + if p.frac { p.i2 - p.i1 - 1 } else { 0 }
}

proof fn lemma_digits_range(s: Seq<char>, i: int, e: int)
    requires
        0 <= i <= s.len(),
        e == digits_end(s, i),
    ensures
        i <= e <= s.len(),
        all_digits(s.subrange(i, e)),
{
    lemma_digits_end(s, i);
    assert forall|k: int| 0 <= k < e - i implies is_digit(#[trigger] s.subrange(i, e)[k]) by {
        assert(s.subrange(i, e)[k] == s[i + k]);
    }
}

/// The parts of `s`, if it is a valid literal.
fn literal_parts(s: &Vec<char>) -> (r: Option<Parts>)
    ensures
        r is Some <==> valid_literal(s@),
        r matches Some(p) ==> parts_ok(s@, p),
{
    let n = s.len();
    let neg = n > 0 && s[0] == '-';
    let i0: usize = if neg { 1 } else { 0 };
    if i0 >= n {
        return None;
    }
    let c0 = s[i0];
    if !(c0 == '0' || ('1' <= c0 && c0 <= '9')) {
        return None;
    }
    let i1 = if c0 == '0' { i0 + 1 } else { digits_end_exec(s, i0 + 1) };
    proof {
        if c0 != '0' {
            lemma_digits_range(s@, i0 + 1, i1 as int);
            assert forall|k: int| 0 <= k < i1 - i0 implies is_digit(#[trigger] s@.subrange(i0 as int, i1 as int)[k]) by {
                if k > 0 {
                    assert(s@.subrange(i0 as int, i1 as int)[k] == s@.subrange(i0 + 1, i1 as int)[k - 1]);
                }
            }
        }
    }
    let frac = i1 < n && s[i1] == '.';
    if frac && !(i1 + 1 < n && is_digit_exec(s[i1 + 1])) {
        return None;
    }
    let i2 = if frac { digits_end_exec(s, i1 + 1) } else { i1 };
    proof {
        if frac {
            lemma_digits_range(s@, i1 + 1, i2 as int);
            lemma_digits_end(s@, i1 + 2);
        }
    }
    let exp = i2 < n && (s[i2] == 'e' || s[i2] == 'E');
    if exp {
        let signed = i2 + 1 < n && (s[i2 + 1] == '+' || s[i2 + 1] == '-');
        let exp_neg = signed && s[i2 + 1] == '-';
        let j = if signed { i2 + 2 } else { i2 + 1 };
        if !(j < n && is_digit_exec(s[j])) {
            return None;
        }
        let e = digits_end_exec(s, j);
        if e != n {
            return None;
        }
        proof {
            lemma_digits_range(s@, j as int, e as int);
        }
        Some(Parts { neg, i0, i1, frac, i2, exp, exp_neg, j })
    } else {
        if i2 != n {
            return None;
        }
        proof {
            assert(s@.subrange(n as int, n as int) =~= Seq::<char>::empty());
        }
        Some(Parts { neg, i0, i1, frac, i2, exp, exp_neg: false, j: n })
    }
}

/// Character `k` of the mantissa of `s`.
fn mant_char(s: &Vec<char>, p: &Parts, k: usize) -> (r: char)
    requires
        parts_ok(s@, *p),
        k < mant_len(*p),
    ensures
        r == mantissa(s@)[k as int],
        is_digit(r),
{
    let ghost m = mantissa(s@);
    let ghost ip = s@.subrange(p.i0 as int, p.i1 as int);
    assert(m.len() == mant_len(*p));
    if k < p.i1 - p.i0 {
        assert(m[k as int] == ip[k as int]);
        s[p.i0 + k]
    } else {
        let q = k - (p.i1 - p.i0);
        assert(m[k as int] == frac_digits(s@)[q as int]);
        s[p.i1 + 1 + q]
    }
}

/// The position of the first nonzero mantissa digit, or the mantissa's
/// length if there is none.
fn first_nonzero(s: &Vec<char>, p: &Parts) -> (r: usize)
    requires
        parts_ok(s@, *p),
    ensures
        r <= mant_len(*p),
        forall|k: int| 0 <= k < r ==> mantissa(s@)[k] == '0',
        r < mant_len(*p) ==> mantissa(s@)[r as int] != '0',
{
    let len = (p.i1 - p.i0) + if p.frac { p.i2 - p.i1 - 1 } else { 0 };
    let mut k: usize = 0;
    while k < len
        invariant
            parts_ok(s@, *p),
            len == mant_len(*p),
            k <= len,
            forall|j: int| 0 <= j < k ==> mantissa(s@)[j] == '0',
        decreases len - k,
    {
        if mant_char(s, p, k) != '0' {
            return k;
        }
        k += 1;
    }
    k
}

/// The position of the last nonzero mantissa digit, given that the one at
/// `from` is nonzero.
fn last_nonzero(s: &Vec<char>, p: &Parts, from: usize) -> (r: usize)
    requires
        parts_ok(s@, *p),
        from < mant_len(*p),
        mantissa(s@)[from as int] != '0',
    ensures
        from <= r < mant_len(*p),
        mantissa(s@)[r as int] != '0',
        forall|k: int| r < k < mant_len(*p) ==> mantissa(s@)[k] == '0',
{
    let len = (p.i1 - p.i0) + if p.frac { p.i2 - p.i1 - 1 } else { 0 };
    let mut k: usize = len - 1;
    while k > from
        invariant
            parts_ok(s@, *p),
            len == mant_len(*p),
            from <= k < len,
            mantissa(s@)[from as int] != '0',
            forall|j: int| k < j < len ==> mantissa(s@)[j] == '0',
        decreases k,
    {
        if mant_char(s, p, k) != '0' {
            return k;
        }
        k -= 1;
    }
    k
}

/// The mantissa of a valid literal is all digits.
proof fn lemma_mantissa_digits(s: Seq<char>, p: Parts)
    requires
        parts_ok(s, p),
    ensures
        all_digits(mantissa(s)),
        mantissa(s).len() == mant_len(p),
{
    let ip = s.subrange(p.i0 as int, p.i1 as int);
    let fd = frac_digits(s);
    assert forall|k: int| 0 <= k < mantissa(s).len() implies is_digit(#[trigger] mantissa(s)[k]) by {
        if k < ip.len() {
            assert(mantissa(s)[k] == ip[k]);
        } else {
            assert(mantissa(s)[k] == fd[k - ip.len()]);
        }
    }
}

/// A mantissa with nonzero digits between `la` and `ra` and zeros around
/// them is its significant digits times a power of ten.
proof fn lemma_mantissa_sig(m: Seq<char>, la: int, ra: int)
    requires
        all_digits(m),
        0 <= la <= ra < m.len(),
        m[la] != '0',
        m[ra] != '0',
        forall|k: int| 0 <= k < la ==> m[k] == '0',
        forall|k: int| ra < k < m.len() ==> m[k] == '0',
    ensures
        is_sig(m.subrange(la, ra + 1)),
        digits_value(m) == digits_value(m.subrange(la, ra + 1)) * ten_to((m.len() - 1 - ra) as nat),
        digits_value(m.subrange(la, ra + 1)) > 0,
{
    let sig = m.subrange(la, ra + 1);
    assert(all_digits(sig)) by {
        assert forall|k: int| 0 <= k < sig.len() implies is_digit(#[trigger] sig[k]) by {
            assert(sig[k] == m[la + k]);
        }
    }
    assert(sig[0] == m[la]);
    assert(sig.last() == m[ra]);
    lemma_value_split(m, ra + 1);
    assert(m.subrange(ra + 1, m.len() as int) =~= zeros((m.len() - 1 - ra) as nat));
    lemma_zeros_value((m.len() - 1 - ra) as nat);
    assert(m.subrange(0, ra + 1) =~= zeros(la as nat) + sig);
    lemma_zeros_prefix(la as nat, sig);
    lemma_lead_bound(sig);
    lemma_ten_step((sig.len() - 1) as nat);
}

/// An all-zero mantissa is zero.
proof fn lemma_mantissa_zero(m: Seq<char>)
    requires
        forall|k: int| 0 <= k < m.len() ==> m[k] == '0',
    ensures
        digits_value(m) == 0,
{
    assert(m =~= zeros(m.len()));
    lemma_zeros_value(m.len());
}

/// Equality of two nonzero scaled values, decided on their significant
/// digits and exponents.
proof fn lemma_scaled_eq(sa: Seq<char>, sb: Seq<char>, ta: nat, tb: nat, ea: int, eb: int)
    requires
        is_sig(sa),
        is_sig(sb),
    ensures
        (if ea >= eb {
            digits_value(sa) * ten_to(ta) * ten_to((ea - eb) as nat) == digits_value(sb) * ten_to(tb)
        } else {
            digits_value(sa) * ten_to(ta) == digits_value(sb) * ten_to(tb) * ten_to((eb - ea) as nat)
        }) <==> (sa == sb && ta + ea == tb + eb),
{
    let (va, vb) = (digits_value(sa), digits_value(sb));
    if ea >= eb {
        let g = (ea - eb) as nat;
        lemma_pow_adds(10, ta, g);
        assert(va * ten_to(ta) * ten_to(g) == va * ten_to(ta + g)) by (nonlinear_arith)
            requires
                ten_to(ta + g) == ten_to(ta) * ten_to(g),
        ;
        if va * ten_to(ta + g) == vb * ten_to(tb) {
            lemma_sig_unique(sa, sb, ta + g, tb);
        }
    } else {
        let g = (eb - ea) as nat;
        lemma_pow_adds(10, tb, g);
        assert(vb * ten_to(tb) * ten_to(g) == vb * ten_to(tb + g)) by (nonlinear_arith)
            requires
                ten_to(tb + g) == ten_to(tb) * ten_to(g),
        ;
        if va * ten_to(ta) == vb * ten_to(tb + g) {
            lemma_sig_unique(sa, sb, ta, tb + g);
        }
    }
}

/// Once the running value `r` of the leading digits is further from zero
/// than `d`, the remaining digits cannot bring the result back to `d`.
proof fn lemma_early_exit(r: int, d: int, tm: int, rx: int, ry: int, sum: bool)
    requires
        tm >= 1,
        0 <= rx < tm,
        0 <= ry < tm,
        sum ==> r >= 0,
        r > d && r > -d || r < d && r < -d,
    ensures
        (if sum { r * tm + (rx + ry) } else { r * tm + (rx - ry) }) != d,
{
    if sum {
        assert(r * tm + (rx + ry) > d) by (nonlinear_arith)
            requires
                tm >= 1,
                rx >= 0,
                ry >= 0,
                r >= 0,
                r > d,
        ;
    } else if r > 0 {
        assert(r * tm + (rx - ry) > d) by (nonlinear_arith)
            requires
                tm >= 1,
                rx - ry > -tm,
                r > d,
                r > -d,
                r > 0,
        ;
    } else {
        assert(r * tm + (rx - ry) < d) by (nonlinear_arith)
            requires
                tm >= 1,
                rx - ry < tm,
                r < d,
                r < -d,
                r <= 0,
        ;
    }
}

/// The digit-by-digit comparison may stop as soon as the leading digits are
/// too far from `d`.
proof fn lemma_combine_exit(px: Seq<char>, py: Seq<char>, k: int, acc: int, d: int, sum: bool)
    requires
        px.len() == py.len(),
        0 <= k <= px.len(),
        all_digits(px),
        all_digits(py),
        acc == (if sum {
            digits_value(px.subrange(0, k)) + digits_value(py.subrange(0, k))
        } else {
            digits_value(px.subrange(0, k)) - digits_value(py.subrange(0, k))
        }),
        sum ==> acc >= 0,
        acc > d && acc > -d || acc < d && acc < -d,
    ensures
        (if sum { digits_value(px) + digits_value(py) } else { digits_value(px) - digits_value(py) }) != d,
{
    let len = px.len() as int;
    let m = (len - k) as nat;
    lemma_value_split(px, k);
    lemma_value_split(py, k);
    let rx = px.subrange(k, len);
    let ry = py.subrange(k, len);
    assert(all_digits(rx)) by {
        assert forall|q: int| 0 <= q < rx.len() implies is_digit(#[trigger] rx[q]) by {
            assert(rx[q] == px[k + q]);
        }
    }
    assert(all_digits(ry)) by {
        assert forall|q: int| 0 <= q < ry.len() implies is_digit(#[trigger] ry[q]) by {
            assert(ry[q] == py[k + q]);
        }
    }
    lemma_value_bounds(rx);
    lemma_value_bounds(ry);
    lemma_ten_step(m);
    lemma_ten_step(0);
    lemma_pow_increases(10, 0, m);
    let (vx, vy) = (digits_value(px.subrange(0, k)), digits_value(py.subrange(0, k)));
    let tm = ten_to(m);
    lemma_early_exit(acc, d, tm, digits_value(rx), digits_value(ry), sum);
    assert(vx * tm + vy * tm == (vx + vy) * tm) by (nonlinear_arith);
    assert(vx * tm - vy * tm == (vx - vy) * tm) by (nonlinear_arith);
}

/// `x - y == d`, or `x + y == d` where `sum`, for the numbers `x` and `y`
/// that the digit strings `s[xs..xe]` and `t[ys..ye]` spell. Works digit by
/// digit from the most significant one, so the numbers may be of any size.
#[verifier::rlimit(40)]
fn combine_eq(s: &Vec<char>, xs: usize, xe: usize, t: &Vec<char>, ys: usize, ye: usize, sum: bool, d: i128) -> (r: bool)
    requires
        xs <= xe <= s@.len(),
        ys <= ye <= t@.len(),
        all_digits(s@.subrange(xs as int, xe as int)),
        all_digits(t@.subrange(ys as int, ye as int)),
        -0x1_0000_0000_0000_0000_0000 <= d <= 0x1_0000_0000_0000_0000_0000,
    ensures
        r == (if sum {
            digits_value(s@.subrange(xs as int, xe as int)) + digits_value(t@.subrange(ys as int, ye as int)) == d
        } else {
            digits_value(s@.subrange(xs as int, xe as int)) - digits_value(t@.subrange(ys as int, ye as int)) == d
        }),
{
    let ghost x = s@.subrange(xs as int, xe as int);
    let ghost y = t@.subrange(ys as int, ye as int);
    let lx = xe - xs;
    let ly = ye - ys;
    let len = if lx < ly { ly } else { lx };
    let bound: i128 = if d < 0 { -d } else { d };
    let ghost px = zeros((len - lx) as nat) + x;
    let ghost py = zeros((len - ly) as nat) + y;
    proof {
        assert(all_digits(px)) by {
            assert forall|k: int| 0 <= k < px.len() implies is_digit(#[trigger] px[k]) by {
                if k >= len - lx {
                    assert(px[k] == x[k - (len - lx)]);
                }
            }
        }
        assert(all_digits(py)) by {
            assert forall|k: int| 0 <= k < py.len() implies is_digit(#[trigger] py[k]) by {
                if k >= len - ly {
                    assert(py[k] == y[k - (len - ly)]);
                }
            }
        }
        assert(px.subrange(0, 0) =~= Seq::<char>::empty());
        assert(py.subrange(0, 0) =~= Seq::<char>::empty());
    }
    let mut acc: i128 = 0;
    let mut k: usize = 0;
    while k < len
        invariant
            k <= len,
            px.len() == len,
            py.len() == len,
            all_digits(px),
            all_digits(py),
            x == s@.subrange(xs as int, xe as int),
            y == t@.subrange(ys as int, ye as int),
            px == zeros((len - lx) as nat) + x,
            py == zeros((len - ly) as nat) + y,
            lx == xe - xs,
            ly == ye - ys,
            xs <= xe <= s@.len(),
            ys <= ye <= t@.len(),
            lx <= len,
            ly <= len,
            0 <= bound <= 0x1_0000_0000_0000_0000_0000,
            bound == d || bound == -d,
            -bound <= acc <= bound,
            sum ==> acc >= 0,
            acc == (if sum {
                digits_value(px.subrange(0, k as int)) + digits_value(py.subrange(0, k as int))
            } else {
                digits_value(px.subrange(0, k as int)) - digits_value(py.subrange(0, k as int))
            }),
        decreases len - k,
    {
        let dx: i128 = if k < len - lx {
            0
        } else {
            let c = s[xs + (k - (len - lx))];
            proof {
                assert(c == px[k as int]);
                assert(is_digit(px[k as int]));
            }
            (c as u32 - '0' as u32) as i128
        };
        let dy: i128 = if k < len - ly {
            0
        } else {
            let c = t[ys + (k - (len - ly))];
            proof {
                assert(c == py[k as int]);
                assert(is_digit(py[k as int]));
            }
            (c as u32 - '0' as u32) as i128
        };
        proof {
            assert(dx == digit_value(px[k as int]));
            assert(dy == digit_value(py[k as int]));
            assert(px.subrange(0, k + 1).drop_last() =~= px.subrange(0, k as int));
            assert(py.subrange(0, k + 1).drop_last() =~= py.subrange(0, k as int));
            assert(px.subrange(0, k + 1).last() == px[k as int]);
            assert(py.subrange(0, k + 1).last() == py[k as int]);
        }
        acc = if sum { acc * 10 + (dx + dy) } else { acc * 10 + (dx - dy) };
        k += 1;
        if acc > bound || acc < -bound {
            proof {
                lemma_combine_exit(px, py, k as int, acc as int, d as int, sum);
                lemma_zeros_prefix((len - lx) as nat, x);
                lemma_zeros_prefix((len - ly) as nat, y);
            }
            return false;
        }
    }
    proof {
        assert(px.subrange(0, len as int) =~= px);
        assert(py.subrange(0, len as int) =~= py);
        lemma_zeros_prefix((len - lx) as nat, x);
        lemma_zeros_prefix((len - ly) as nat, y);
    }
    acc == d
}

/// A mantissa's value: zero if it has no nonzero digit, and otherwise
/// positive.
proof fn lemma_mantissa_value(m: Seq<char>, f: int, r: int)
    requires
        all_digits(m),
        0 <= f <= m.len(),
        forall|k: int| 0 <= k < f ==> m[k] == '0',
        f < m.len() ==> f <= r < m.len() && m[f] != '0' && m[r] != '0',
        f < m.len() ==> forall|k: int| r < k < m.len() ==> m[k] == '0',
    ensures
        f == m.len() ==> digits_value(m) == 0,
        f < m.len() ==> digits_value(m) > 0,
{
    if f == m.len() {
        lemma_mantissa_zero(m);
    } else {
        lemma_mantissa_sig(m, f, r);
        let t = (m.len() - 1 - r) as nat;
        lemma_ten_step(t);
        let v = digits_value(m.subrange(f, r + 1));
        assert(v * ten_to(t) > 0) by (nonlinear_arith)
            requires
                v > 0,
                ten_to(t) > 0,
        ;
    }
}

/// Where one literal's mantissa is zero, the two denote the same number
/// exactly when both mantissas are zero.
proof fn lemma_zero_case(a: Seq<char>, b: Seq<char>)
    requires
        digits_value(mantissa(a)) >= 0,
        digits_value(mantissa(b)) >= 0,
        digits_value(mantissa(a)) == 0 || digits_value(mantissa(b)) == 0,
    ensures
        same_number(a, b) == (digits_value(mantissa(a)) == 0 && digits_value(mantissa(b)) == 0),
{
    let (ma, mb) = (digits_value(mantissa(a)), digits_value(mantissa(b)));
    let (ea, eb) = (scale(a), scale(b));
    if ma > 0 {
        lemma_scale_nonzero(ma, ea - eb);
        lemma_scale_nonzero(ma, 0);
        lemma_ten_step((eb - ea) as nat);
    }
    if mb > 0 {
        lemma_scale_nonzero(mb, eb - ea);
        lemma_ten_step((ea - eb) as nat);
    }
}

/// For two nonzero mantissas: the same number exactly when the signs, the
/// significant digits and the scales of those digits agree.
proof fn lemma_nonzero_case(a: Seq<char>, b: Seq<char>, fa: int, ra: int, fb: int, rb: int)
    requires
        all_digits(mantissa(a)),
        all_digits(mantissa(b)),
        0 <= fa <= ra < mantissa(a).len(),
        0 <= fb <= rb < mantissa(b).len(),
        mantissa(a)[fa] != '0',
        mantissa(a)[ra] != '0',
        mantissa(b)[fb] != '0',
        mantissa(b)[rb] != '0',
        forall|k: int| 0 <= k < fa ==> mantissa(a)[k] == '0',
        forall|k: int| ra < k < mantissa(a).len() ==> mantissa(a)[k] == '0',
        forall|k: int| 0 <= k < fb ==> mantissa(b)[k] == '0',
        forall|k: int| rb < k < mantissa(b).len() ==> mantissa(b)[k] == '0',
    ensures
        same_number(a, b) <==> (lit_neg(a) == lit_neg(b) && mantissa(a).subrange(fa, ra + 1) == mantissa(b).subrange(fb, rb + 1)
            && (mantissa(a).len() - 1 - ra) + scale(a) == (mantissa(b).len() - 1 - rb) + scale(b)),
{
    let (ma, mb) = (mantissa(a), mantissa(b));
    let (sa, sb) = (ma.subrange(fa, ra + 1), mb.subrange(fb, rb + 1));
    let (ta, tb) = ((ma.len() - 1 - ra) as nat, (mb.len() - 1 - rb) as nat);
    lemma_mantissa_sig(ma, fa, ra);
    lemma_mantissa_sig(mb, fb, rb);
    lemma_scaled_eq(sa, sb, ta, tb, scale(a), scale(b));
    lemma_ten_step(ta);
    lemma_ten_step(tb);
    let (va, vb) = (digits_value(sa), digits_value(sb));
    assert(va * ten_to(ta) > 0 && vb * ten_to(tb) > 0) by (nonlinear_arith)
        requires
            va > 0,
            vb > 0,
            ten_to(ta) > 0,
            ten_to(tb) > 0,
    ;
}

/// Whether the significant digits `ma[fa..=ra]` and `mb[fb..=rb]` are the
/// same.
fn sig_eq(a: &Vec<char>, pa: &Parts, fa: usize, ra: usize, b: &Vec<char>, pb: &Parts, fb: usize, rb: usize) -> (r: bool)
    requires
        parts_ok(a@, *pa),
        parts_ok(b@, *pb),
        fa <= ra < mant_len(*pa),
        fb <= rb < mant_len(*pb),
    ensures
        r == (mantissa(a@).subrange(fa as int, ra + 1) == mantissa(b@).subrange(fb as int, rb + 1)),
{
    let ghost (sa, sb) = (mantissa(a@).subrange(fa as int, ra + 1), mantissa(b@).subrange(fb as int, rb + 1));
    proof {
        lemma_mantissa_digits(a@, *pa);
        lemma_mantissa_digits(b@, *pb);
    }
    if ra - fa != rb - fb {
        assert(sa.len() != sb.len());
        return false;
    }
    let mut k: usize = 0;
    while k <= ra - fa
        invariant
            parts_ok(a@, *pa),
            parts_ok(b@, *pb),
            fa <= ra < mant_len(*pa) == mantissa(a@).len(),
            fb <= rb < mant_len(*pb) == mantissa(b@).len(),
            ra - fa == rb - fb,
            k <= ra - fa + 1,
            sa == mantissa(a@).subrange(fa as int, ra + 1),
            sb == mantissa(b@).subrange(fb as int, rb + 1),
            forall|q: int| 0 <= q < k ==> #[trigger] sa[q] == sb[q],
        decreases ra - fa + 1 - k,
    {
        let ca = mant_char(a, pa, fa + k);
        let cb = mant_char(b, pb, fb + k);
        proof {
            assert(sa[k as int] == ca);
            assert(sb[k as int] == cb);
        }
        if ca != cb {
            return false;
        }
        k += 1;
    }
    assert(sa =~= sb);
    true
}

/// Whether the valid literals `a` and `b` denote the same number.
fn same_number_exec(a: &Vec<char>, pa: &Parts, b: &Vec<char>, pb: &Parts) -> (r: bool)
    requires
        parts_ok(a@, *pa),
        parts_ok(b@, *pb),
    ensures
        r == same_number(a@, b@),
{
    proof {
        lemma_mantissa_digits(a@, *pa);
        lemma_mantissa_digits(b@, *pb);
    }
    let len_a = (pa.i1 - pa.i0) + if pa.frac { pa.i2 - pa.i1 - 1 } else { 0 };
    let len_b = (pb.i1 - pb.i0) + if pb.frac { pb.i2 - pb.i1 - 1 } else { 0 };
    let fa = first_nonzero(a, pa);
    let fb = first_nonzero(b, pb);
    let ra = if fa < len_a { last_nonzero(a, pa, fa) } else { fa };
    let rb = if fb < len_b { last_nonzero(b, pb, fb) } else { fb };
    proof {
        lemma_mantissa_value(mantissa(a@), fa as int, ra as int);
        lemma_mantissa_value(mantissa(b@), fb as int, rb as int);
    }
    if fa == len_a || fb == len_b {
        proof {
            lemma_zero_case(a@, b@);
        }
        return fa == len_a && fb == len_b;
    }
    proof {
        lemma_nonzero_case(a@, b@, fa as int, ra as int, fb as int, rb as int);
    }
    if pa.neg != pb.neg {
        return false;
    }
    if !sig_eq(a, pa, fa, ra, b, pb, fb, rb) {
        return false;
    }
    scale_eq(a, pa, ra, b, pb, rb)
}

/// Whether the last significant digits `ra` of `a` and `rb` of `b` stand
/// for the same power of ten: `t_a + scale(a) == t_b + scale(b)`, where
/// `t` counts the zeros after the last significant digit.
#[verifier::rlimit(80)]
fn scale_eq(a: &Vec<char>, pa: &Parts, ra: usize, b: &Vec<char>, pb: &Parts, rb: usize) -> (r: bool)
    requires
        parts_ok(a@, *pa),
        parts_ok(b@, *pb),
        ra < mant_len(*pa),
        rb < mant_len(*pb),
    ensures
        r == ((mantissa(a@).len() - 1 - ra) + scale(a@) == (mantissa(b@).len() - 1 - rb) + scale(b@)),
{
    proof {
        lemma_mantissa_digits(a@, *pa);
        lemma_mantissa_digits(b@, *pb);
    }
    let len_a = (pa.i1 - pa.i0) + if pa.frac { pa.i2 - pa.i1 - 1 } else { 0 };
    let len_b = (pb.i1 - pb.i0) + if pb.frac { pb.i2 - pb.i1 - 1 } else { 0 };
    let frac_a: usize = if pa.frac { pa.i2 - pa.i1 - 1 } else { 0 };
    let frac_b: usize = if pb.frac { pb.i2 - pb.i1 - 1 } else { 0 };
    assert(frac_digits(a@).len() == frac_a);
    assert(frac_digits(b@).len() == frac_b);
    // t_a - frac_a + exp_a == t_b - frac_b + exp_b, that is
    // exp_a - exp_b == d
    let d: i128 = (((len_b - 1 - rb) as i128) - (frac_b as i128)) - (((len_a - 1 - ra) as i128) - (frac_a as i128));
    let (xs, xe, ys, ye) = (pa.j, a.len(), pb.j, b.len());
    match (pa.exp_neg, pb.exp_neg) {
        (false, false) => combine_eq(a, xs, xe, b, ys, ye, false, d),
        (true, true) => combine_eq(a, xs, xe, b, ys, ye, false, -d),
        (false, true) => combine_eq(a, xs, xe, b, ys, ye, true, d),
        (true, false) => combine_eq(a, xs, xe, b, ys, ye, true, -d),
    }
}

/// A nonzero mantissa value times any power of ten is not zero.
proof fn lemma_scale_nonzero(m: int, g: int)
    requires
        m > 0,
    ensures
        m * ten_to(g as nat) > 0,
        m * 0 == 0,
        0 * ten_to(g as nat) == 0,
{
    lemma_ten_step(g as nat);
    assert(m * ten_to(g as nat) > 0) by (nonlinear_arith)
        requires
            m > 0,
            ten_to(g as nat) > 0,
    ;
}

// ---------------------------------------------------------------------
// Numeric equality is an equivalence.

/// `same_number` in terms of any common lower exponent `e`.
proof fn lemma_same_number_at(a: Seq<char>, b: Seq<char>, e: int)
    requires
        e <= scale(a),
        e <= scale(b),
        digits_value(mantissa(a)) >= 0,
        digits_value(mantissa(b)) >= 0,
    ensures
        same_number(a, b) <==> (digits_value(mantissa(a)) == 0 && digits_value(mantissa(b)) == 0) || (lit_neg(a)
            == lit_neg(b) && digits_value(mantissa(a)) * ten_to((scale(a) - e) as nat) == digits_value(mantissa(b))
            * ten_to((scale(b) - e) as nat)),
        digits_value(mantissa(a)) * ten_to((scale(a) - e) as nat) == 0 <==> digits_value(mantissa(a)) == 0,
        digits_value(mantissa(b)) * ten_to((scale(b) - e) as nat) == 0 <==> digits_value(mantissa(b)) == 0,
{
    let (ma, mb) = (digits_value(mantissa(a)), digits_value(mantissa(b)));
    let (ea, eb) = (scale(a), scale(b));
    let (xa, xb) = ((ea - e) as nat, (eb - e) as nat);
    lemma_ten_step(xa);
    lemma_ten_step(xb);
    if ea >= eb {
        let g = (ea - eb) as nat;
        lemma_pow_adds(10, g, xb);
        assert(ten_to(xa) == ten_to(g) * ten_to(xb));
        let (p, q) = (ten_to(g), ten_to(xb));
        assert(ma * p == mb <==> ma * (p * q) == mb * q) by (nonlinear_arith)
            requires
                q > 0,
        ;
    } else {
        let g = (eb - ea) as nat;
        lemma_pow_adds(10, g, xa);
        assert(ten_to(xb) == ten_to(g) * ten_to(xa));
        let (p, q) = (ten_to(g), ten_to(xa));
        assert(ma == mb * p <==> ma * q == mb * (p * q)) by (nonlinear_arith)
            requires
                q > 0,
        ;
    }
    assert(ma * ten_to(xa) == 0 <==> ma == 0) by (nonlinear_arith)
        requires
            ten_to(xa) > 0,
            ma >= 0,
    ;
    assert(mb * ten_to(xb) == 0 <==> mb == 0) by (nonlinear_arith)
        requires
            ten_to(xb) > 0,
            mb >= 0,
    ;
}

proof fn lemma_mantissa_nonneg(s: Seq<char>)
    requires
        valid_literal(s),
    ensures
        digits_value(mantissa(s)) >= 0,
{
    let m = mantissa(s);
    lemma_digits_end(s, int_start(s) + 1);
    if has_frac(s) {
        lemma_digits_end(s, int_end(s) + 1);
    }
    assert(all_digits(m)) by {
        let ip = s.subrange(int_start(s), int_end(s));
        assert forall|k: int| 0 <= k < m.len() implies is_digit(#[trigger] m[k]) by {
            if k < ip.len() {
                assert(m[k] == s[int_start(s) + k]);
            } else {
                assert(m[k] == s[int_end(s) + 1 + (k - ip.len())]);
            }
        }
    }
    lemma_value_bounds(m);
}

/// Numeric equality of literal texts is an equivalence: reflexive,
/// symmetric and transitive.
pub proof fn law_numeric_eq_equivalence(a: Seq<char>, b: Seq<char>, c: Seq<char>)
    ensures
        num_eq_spec(a, a),
        num_eq_spec(a, b) == num_eq_spec(b, a),
        num_eq_spec(a, b) && num_eq_spec(b, c) ==> num_eq_spec(a, c),
{
    if valid_literal(a) && valid_literal(b) && valid_literal(c) {
        lemma_mantissa_nonneg(a);
        lemma_mantissa_nonneg(b);
        lemma_mantissa_nonneg(c);
        let e = if scale(a) <= scale(b) && scale(a) <= scale(c) {
            scale(a)
        } else if scale(b) <= scale(c) {
            scale(b)
        } else {
            scale(c)
        };
        lemma_same_number_at(a, b, e);
        lemma_same_number_at(b, a, e);
        lemma_same_number_at(b, c, e);
        lemma_same_number_at(a, c, e);
    } else if valid_literal(a) && valid_literal(b) {
        lemma_mantissa_nonneg(a);
        lemma_mantissa_nonneg(b);
        let e = if scale(a) <= scale(b) { scale(a) } else { scale(b) };
        lemma_same_number_at(a, b, e);
        lemma_same_number_at(b, a, e);
    }
}

// ---------------------------------------------------------------------
// A number token is a literal on its own.

proof fn lemma_digits_end_shift(s: Seq<char>, i: int, e: int, x: int)
    requires
        0 <= i <= x,
        x <= digits_end(s, x) <= e <= s.len(),
    ensures
        digits_end(s.subrange(i, e), x - i) == digits_end(s, x) - i,
    decreases e - x,
{
    let t = s.subrange(i, e);
    if x < s.len() && is_digit(s[x]) {
        lemma_digits_end(s, x + 1);
        assert(t[x - i] == s[x]);
        lemma_digits_end_shift(s, i, e, x + 1);
    } else if x < e {
        assert(t[x - i] == s[x]);
    }
}

/// The text of the number literal that starts at `i` and ends at `e` is a
/// valid literal by itself.
#[verifier::rlimit(50)]
pub proof fn lemma_number_token_valid(s: Seq<char>, i: int, e: int)
    requires
        0 <= i < s.len(),
        number_end(s, i) == Ok::<int, crate::model::ErrM>(e),
    ensures
        valid_literal(s.subrange(i, e)),
{
    let t = s.subrange(i, e);
    let i0 = if at(s, i) == '-' { i + 1 } else { i };
    assert(at(s, i0) == '0' || ('1' <= at(s, i0) && at(s, i0) <= '9'));
    assert(i0 < s.len());
    lemma_digits_end(s, i0 + 1);
    let i1 = if at(s, i0) == '0' { i0 + 1 } else { digits_end(s, i0 + 1) };
    assert(i0 < i1 <= s.len());
    let frac = at(s, i1) == '.';
    if frac {
        assert(is_digit(at(s, i1 + 1)));
        lemma_digits_end(s, i1 + 1);
        lemma_digits_end(s, i1 + 2);
        assert(digits_end(s, i1 + 1) == digits_end(s, i1 + 2));
    }
    let i2 = if frac { digits_end(s, i1 + 1) } else { i1 };
    assert(i1 <= i2 <= s.len());
    let ex = at(s, i2) == 'e' || at(s, i2) == 'E';
    if ex {
        let j = if at(s, i2 + 1) == '+' || at(s, i2 + 1) == '-' { i2 + 2 } else { i2 + 1 };
        assert(is_digit(at(s, j)));
        lemma_digits_end(s, j);
        lemma_digits_end(s, j + 1);
        assert(digits_end(s, j) == digits_end(s, j + 1));
        assert(e == digits_end(s, j));
        assert(j < e);
    } else {
        assert(e == i2);
    }
    assert(i2 <= e <= s.len());
    assert forall|k: int| 0 <= k < e - i implies #[trigger] at(t, k) == at(s, i + k) by {
        assert(t[k] == s[i + k]);
    }
    assert(at(t, 0) == at(s, i));
    assert(at(t, i0 - i) == at(s, i0));
    if at(s, i0) != '0' {
        lemma_digits_end_shift(s, i, e, i0 + 1);
    }
    if i1 < e {
        assert(at(t, i1 - i) == at(s, i1));
    } else {
        assert(at(t, i1 - i) == '\0');
    }
    if frac {
        assert(at(t, i1 + 1 - i) == at(s, i1 + 1));
        lemma_digits_end_shift(s, i, e, i1 + 1);
    }
    if ex {
        assert(at(t, i2 - i) == at(s, i2));
        let j = if at(s, i2 + 1) == '+' || at(s, i2 + 1) == '-' { i2 + 2 } else { i2 + 1 };
        assert(at(t, i2 + 1 - i) == at(s, i2 + 1));
        assert(at(t, j - i) == at(s, j));
        lemma_digits_end_shift(s, i, e, j);
    } else {
        assert(at(t, i2 - i) == '\0');
    }
}

/// Every number token among `items` holds a valid literal.
pub open spec fn number_tokens_valid(items: Seq<ItemM>) -> bool {
    forall|k: int| 0 <= k < items.len() ==> (#[trigger] items[k] matches ItemM::Real(TokM::Number(t), _, _) ==> valid_literal(t))
}

/// The lexer's number tokens are valid literals.
pub proof fn lemma_lex_numbers_valid(s: Seq<char>, i: int)
    requires
        0 <= i <= s.len(),
    ensures
        lex_from(s, i) matches Ok(items) ==> number_tokens_valid(items),
    decreases s.len() - i,
{
    if i < s.len() {
        match lex_step(s, i) {
            Ok((it, j)) => if i < j <= s.len() {
                lemma_lex_numbers_valid(s, j);
                if let Ok(rest) = lex_from(s, j) {
                    let items = opt_seq(it) + rest;
                    assert(lex_from(s, i) == Ok::<Seq<ItemM>, crate::model::ErrM>(items));
                    if let Some(ItemM::Real(TokM::Number(t), _, _)) = it {
                        assert(number_end(s, i) == Ok::<int, crate::model::ErrM>(j));
                        assert(t == s.subrange(i, j));
                        lemma_number_token_valid(s, i, j);
                    }
                    assert forall|k: int| 0 <= k < items.len() implies (#[trigger] items[k] matches ItemM::Real(
                        TokM::Number(t),
                        _,
                        _,
                    ) ==> valid_literal(t)) by {
                        if k >= opt_seq(it).len() {
                            assert(items[k] == rest[k - opt_seq(it).len()]);
                        }
                    }
                }
            },
            Err(_) => {},
        }
    }
}

impl Number {
    /// A number from its literal text, if `text` is a valid CSON number
    /// literal (`-? int (. frac)? ([eE] [+-]? exp)?`); `None` otherwise, so
    /// that no invalid literal ever reaches the writer.
    pub fn from_literal(text: &str) -> (r: Option<Number>)
        ensures
            r is Some <==> valid_literal(text@),
            r matches Some(n) ==> n@ == text@,
    {
        broadcast use crate::group_view;
        let cs = chars_of(text);
        match literal_parts(&cs) {
            Some(_) => Some(Number { raw: String::from_str(text) }),
            None => None,
        }
    }

    /// Numeric equality, ignoring the raw literal's formatting (`1.50` ==
    /// `1.5`, `1e2` == `100`, `-0` == `0`).
    pub fn numeric_eq(&self, other: &Number) -> (r: bool)
        ensures
            r == num_eq_spec(self@, other@),
    {
        broadcast use crate::group_view;
        if str_eq(self.raw.as_str(), other.raw.as_str()) {
            return true;
        }
        let a = chars_of(self.raw.as_str());
        let b = chars_of(other.raw.as_str());
        let pa = match literal_parts(&a) {
            Some(p) => p,
            None => return false,
        };
        let pb = match literal_parts(&b) {
            Some(p) => p,
            None => return false,
        };
        same_number_exec(&a, &pa, &b, &pb)
    }
}

} // verus!
