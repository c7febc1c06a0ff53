use vstd::prelude::*;
use vstd::string::*;
use vstd::utf8::*;
use super::ast::{Operator, Scalar, ScalarView, invalid, invalid_error, op_of};
use crate::source::{SyntaxError, ErrorView};
use crate::text::{bytes, byte_len, push_ascii, string_from_bytes, lemma_empty_valid};

verus! {

broadcast use vstd::seq_lib::group_seq_properties;

/// Characters that end an unquoted token.
pub open spec fn is_terminator(c: char) -> bool {
    c == ' ' || c == '\t' || c == '\r' || c == '\n' || c == '\u{b}' || c == '\u{c}' || c == ';'
        || c == '{' || c == '}' || c == '[' || c == ']' || c == '=' || c == '<' || c == '>'
        || c == '!' || c == '#' || c == '"'
}

/// Byte form of `is_terminator`: every terminator is ASCII, so no byte of a longer encoding matches.
pub open spec fn term_byte(b: u8) -> bool {
    is_terminator(b as char)
}

pub(crate) fn terminates(ch: char) -> (r: bool)
    ensures
        r == is_terminator(ch),
{
    ch == ' ' || ch == '\t' || ch == '\r' || ch == '\n' || ch == '\u{b}' || ch == '\u{c}' || ch
        == ';' || ch == '{' || ch == '}' || ch == '[' || ch == ']' || ch == '=' || ch == '<' || ch
        == '>' || ch == '!' || ch == '#' || ch == '"'
}

/// Exactly one unquoted token.
pub open spec fn bare_token(t: Seq<u8>) -> bool {
    t.len() > 0 && forall|i: int| 0 <= i < t.len() ==> !term_byte(#[trigger] t[i])
}

/// Whether `t` begins with the encoding of U+FEFF.
pub open spec fn starts_with_bom(t: Seq<u8>) -> bool {
    t.len() >= 3 && t[0] == 0xEFu8 && t[1] == 0xBBu8 && t[2] == 0xBFu8
}

pub open spec fn bare_key(t: Seq<u8>) -> bool {
    bare_token(t) && !starts_with_bom(t)
}

pub open spec fn is_digit(b: u8) -> bool {
    48 <= b <= 57
}

pub open spec fn digits(t: Seq<u8>) -> bool {
    t.len() > 0 && forall|i: int| 0 <= i < t.len() ==> is_digit(#[trigger] t[i])
}

/// The first index at or after `i` holding byte `c`.
pub open spec fn find_from(t: Seq<u8>, c: u8, i: int) -> Option<int>
    decreases t.len() - i,
{
    if i < 0 || i >= t.len() {
        None
    } else if t[i] == c {
        Some(i)
    } else {
        find_from(t, c, i + 1)
    }
}

pub proof fn lemma_find_from(t: Seq<u8>, c: u8, i: int)
    requires
        0 <= i,
    ensures
        find_from(t, c, i) matches Some(k) ==> i <= k < t.len() && t[k] == c && forall|j: int|
            i <= j < k ==> t[j] != c,
        find_from(t, c, i) is None ==> forall|j: int| i <= j < t.len() ==> t[j] != c,
    decreases t.len() - i,
{
    if i < t.len() && t[i] != c {
        lemma_find_from(t, c, i + 1);
    }
}

/// `t` without one leading sign.
pub open spec fn unsigned_part(t: Seq<u8>) -> Seq<u8> {
    if t.len() > 0 && (t[0] == 43u8 || t[0] == 45u8) {
        t.subrange(1, t.len() as int)
    } else {
        t
    }
}

/// A supported decimal numeral, without an exponent.
pub open spec fn numeral(t: Seq<u8>) -> bool {
    let u = unsigned_part(t);
    match find_from(u, 46u8, 0) {
        Some(k) => (k == 0 || digits(u.subrange(0, k))) && digits(u.subrange(k + 1, u.len() as int)),
        None => digits(u),
    }
}

pub open spec fn strip_leading_zeros(t: Seq<u8>) -> Seq<u8>
    decreases t.len(),
{
    if t.len() > 0 && t[0] == 48u8 {
        strip_leading_zeros(t.subrange(1, t.len() as int))
    } else {
        t
    }
}

pub open spec fn strip_trailing_zeros(t: Seq<u8>) -> Seq<u8>
    decreases t.len(),
{
    if t.len() > 0 && t.last() == 48u8 {
        strip_trailing_zeros(t.drop_last())
    } else {
        t
    }
}

/// The digits before the point, after any sign.
pub open spec fn whole_part(t: Seq<u8>) -> Seq<u8> {
    let u = unsigned_part(t);
    match find_from(u, 46u8, 0) {
        Some(k) => u.subrange(0, k),
        None => u,
    }
}

/// The digits after the point, if any.
pub open spec fn fraction_part(t: Seq<u8>) -> Seq<u8> {
    let u = unsigned_part(t);
    match find_from(u, 46u8, 0) {
        Some(k) => u.subrange(k + 1, u.len() as int),
        None => Seq::<u8>::empty(),
    }
}

/// The unsigned canonical digits: no leading integer zeros and no trailing fraction zeros.
pub open spec fn magnitude(t: Seq<u8>) -> Seq<u8> {
    let w = strip_leading_zeros(whole_part(t));
    let w = if w.len() == 0 { seq![48u8] } else { w };
    let f = strip_trailing_zeros(fraction_part(t));
    if f.len() == 0 { w } else { w + seq![46u8] + f }
}

/// The canonical spelling of a numeral: canonical digits, no `+`, and no sign on zero.
pub open spec fn canonical(t: Seq<u8>) -> Seq<u8> {
    if t.len() > 0 && t[0] == 45u8 && magnitude(t) != seq![48u8] {
        seq![45u8] + magnitude(t)
    } else {
        magnitude(t)
    }
}

pub open spec fn spec_canonical_numeral(t: Seq<u8>) -> Result<Seq<u8>, ErrorView> {
    if numeral(t) {
        Ok(canonical(t))
    } else {
        Err(invalid_error("Invalid numeral".spec_bytes()))
    }
}

/// Quoting from `i` on: a quote is forbidden and a backslash escapes the next byte.
pub open spec fn quotable_from(t: Seq<u8>, i: int) -> bool
    decreases t.len() - i,
{
    if i < 0 || i >= t.len() {
        true
    } else if t[i] == 34u8 {
        false
    } else if t[i] == 92u8 {
        if i + 1 >= t.len() {
            false
        } else {
            quotable_from(t, i + 2)
        }
    } else {
        quotable_from(t, i + 1)
    }
}

pub open spec fn quotable(t: Seq<u8>) -> bool {
    quotable_from(t, 0)
}

/// How an unquoted token reads: booleans, then numerals, then variables, then strings.
pub open spec fn classify(t: Seq<u8>) -> ScalarView {
    if t == seq![121u8, 101u8, 115u8] {
        ScalarView::Bool { value: true }
    } else if t == seq![110u8, 111u8] {
        ScalarView::Bool { value: false }
    } else if numeral(t) {
        ScalarView::Num { lexeme: canonical(t) }
    } else if t.len() > 0 && t[0] == 64u8 {
        ScalarView::Var { name: t }
    } else {
        ScalarView::Str { value: t, quoted: false }
    }
}

pub open spec fn bare_string(t: Seq<u8>) -> bool {
    bare_token(t) && classify(t) is Str
}

pub open spec fn writable_text(t: Seq<u8>) -> bool {
    bare_string(t) || quotable(t)
}

pub open spec fn param_name(t: Seq<u8>) -> bool {
    bare_token(t)
}

pub open spec fn var_name(t: Seq<u8>) -> bool {
    t.len() > 0 && t[0] == 64u8 && bare_token(t)
}

/// The body of an inline-math token after its `@[` or `@\[` opener.
pub open spec fn math_body(t: Seq<u8>) -> Option<Seq<u8>> {
    if t.len() >= 2 && t[0] == 64u8 && t[1] == 91u8 {
        Some(t.subrange(2, t.len() as int))
    } else if t.len() >= 3 && t[0] == 64u8 && t[1] == 92u8 && t[2] == 91u8 {
        Some(t.subrange(3, t.len() as int))
    } else {
        None
    }
}

/// One complete inline-math token: an opener, a body without `]`, and a closing `]`.
pub open spec fn math_source(t: Seq<u8>) -> bool {
    match math_body(t) {
        Some(b) => b.len() > 0 && b.last() == 93u8 && forall|i: int|
            0 <= i < b.len() - 1 ==> #[trigger] b[i] != 93u8,
        None => false,
    }
}

/// Whether text is exactly one unquoted token.
pub fn is_bare_token(text: &str) -> (r: bool)
    ensures
        r == bare_token(text.spec_bytes()),
{
    let b = text.as_bytes();
    let n = byte_len(text);
    if n == 0 {
        return false;
    }
    let mut i: usize = 0;
    while i < n
        invariant
            b@ == text.spec_bytes(),
            n == b@.len(),
            i <= n,
            forall|j: int| 0 <= j < i ==> !term_byte(#[trigger] b@[j]),
        decreases n - i,
    {
        if terminates(b[i] as char) {
            return false;
        }
        i += 1;
    }
    true
}

/// Whether a key may be emitted bare, including at the document boundary.
pub fn is_bare_key(text: &str) -> (r: bool)
    ensures
        r == bare_key(text.spec_bytes()),
{
    let b = text.as_bytes();
    let bom = b.len() >= 3 && b[0] == 0xEF && b[1] == 0xBB && b[2] == 0xBF;
    is_bare_token(text) && !bom
}

fn all_digits(b: &[u8], a: usize, c: usize) -> (r: bool)
    requires
        a <= c <= b@.len(),
    ensures
        r == digits(b@.subrange(a as int, c as int)),
{
    if a == c {
        return false;
    }
    let mut i = a;
    while i < c
        invariant
            a <= i <= c <= b@.len(),
            forall|j: int| a <= j < i ==> is_digit(#[trigger] b@[j]),
        decreases c - i,
    {
        if b[i] < 48 || b[i] > 57 {
            assert(!is_digit(b@.subrange(a as int, c as int)[i - a]));
            return false;
        }
        i += 1;
    }
    assert forall|j: int| 0 <= j < c - a implies is_digit(
        #[trigger] b@.subrange(a as int, c as int)[j],
    ) by {
        assert(b@.subrange(a as int, c as int)[j] == b@[a + j]);
    }
    true
}

fn find_byte(b: &[u8], c: u8, from: usize) -> (r: Option<usize>)
    requires
        from <= b@.len(),
    ensures
        r matches Some(k) ==> find_from(b@, c, from as int) == Some(k as int),
        r is None ==> find_from(b@, c, from as int) is None,
{
    let mut i = from;
    while i < b.len()
        invariant
            from <= i <= b@.len(),
            find_from(b@, c, from as int) == find_from(b@, c, i as int),
        decreases b@.len() - i,
    {
        if b[i] == c {
            return Some(i);
        }
        i += 1;
    }
    None
}

/// Position where the unsigned part begins, with its sign.
fn sign_len(b: &[u8]) -> (r: usize)
    ensures
        r <= b@.len(),
        unsigned_part(b@) == b@.subrange(r as int, b@.len() as int),
        r == if b@.len() > 0 && (b@[0] == 43u8 || b@[0] == 45u8) { 1usize } else { 0usize },
{
    if b.len() > 0 && (b[0] == 43 || b[0] == 45) {
        1
    } else {
        0
    }
}

proof fn lemma_find_shift(t: Seq<u8>, s: int, c: u8, i: int)
    requires
        0 <= s <= t.len(),
        0 <= i,
    ensures
        find_from(t.subrange(s, t.len() as int), c, i) == match find_from(t, c, s + i) {
            Some(k) => Some(k - s),
            None => None::<int>,
        },
    decreases t.len() - s - i,
{
    if s + i < t.len() && t[s + i] != c {
        lemma_find_shift(t, s, c, i + 1);
    }
}

/// Whether text is a supported decimal numeral, without an exponent.
pub fn is_numeral(text: &str) -> (r: bool)
    ensures
        r == numeral(text.spec_bytes()),
{
    let b = text.as_bytes();
    let n = byte_len(text);
    let s = sign_len(b);
    let ghost u = unsigned_part(b@);
    proof {
        lemma_find_shift(b@, s as int, 46u8, 0);
        lemma_find_from(b@, 46u8, s as int);
    }
    match find_byte(b, 46, s) {
        Some(k) => {
            proof {
                assert(u.subrange(0, k - s) =~= b@.subrange(s as int, k as int));
                assert(u.subrange(k - s + 1, u.len() as int) =~= b@.subrange(k + 1, n as int));
            }
            (k == s || all_digits(b, s, k)) && all_digits(b, k + 1, n)
        },
        None => all_digits(b, s, n),
    }
}

proof fn lemma_strip_leading(t: Seq<u8>, i: int)
    requires
        0 <= i <= t.len(),
        forall|j: int| 0 <= j < i ==> t[j] == 48u8,
    ensures
        strip_leading_zeros(t) == strip_leading_zeros(t.subrange(i, t.len() as int)),
    decreases i,
{
    if i > 0 {
        lemma_strip_leading(t.subrange(1, t.len() as int), i - 1);
        assert(t.subrange(1, t.len() as int).subrange(i - 1, t.len() - 1) =~= t.subrange(
            i,
            t.len() as int,
        ));
    } else {
        assert(t.subrange(0, t.len() as int) =~= t);
    }
}

proof fn lemma_strip_trailing(t: Seq<u8>, i: int)
    requires
        0 <= i <= t.len(),
        forall|j: int| i <= j < t.len() ==> t[j] == 48u8,
    ensures
        strip_trailing_zeros(t) == strip_trailing_zeros(t.subrange(0, i)),
    decreases t.len() - i,
{
    if i < t.len() {
        lemma_strip_trailing(t.drop_last(), i);
        assert(t.drop_last().subrange(0, i) =~= t.subrange(0, i));
    } else {
        assert(t.subrange(0, i) =~= t);
    }
}

proof fn lemma_all_ascii_digits_valid(t: Seq<u8>)
    requires
        forall|j: int| 0 <= j < t.len() ==> #[trigger] t[j] < 0x80,
    ensures
        valid_utf8(t),
    decreases t.len(),
{
    if t.len() == 0 {
        lemma_empty_valid();
    } else {
        lemma_all_ascii_digits_valid(t.drop_last());
        crate::text::lemma_ascii_valid(t.last());
        valid_utf8_concat(t.drop_last(), seq![t.last()]);
        assert(t.drop_last() + seq![t.last()] =~= t);
    }
}

/// Appends `b[a..c]`, all ASCII, to a buffer of valid UTF-8.
fn push_range(out: &mut Vec<u8>, b: &[u8], a: usize, c: usize)
    requires
        a <= c <= b@.len(),
        forall|j: int| a <= j < c ==> #[trigger] b@[j] < 0x80,
        valid_utf8(old(out)@),
    ensures
        final(out)@ == old(out)@ + b@.subrange(a as int, c as int),
        valid_utf8(final(out)@),
{
    let ghost start = out@;
    let mut i = a;
    while i < c
        invariant
            a <= i <= c <= b@.len(),
            forall|j: int| a <= j < c ==> #[trigger] b@[j] < 0x80,
            out@ == start + b@.subrange(a as int, i as int),
            valid_utf8(out@),
        decreases c - i,
    {
        push_ascii(out, b[i]);
        i += 1;
        assert(out@ =~= start + b@.subrange(a as int, i as int));
    }
}

/// Where the whole and fraction digits of a numeral lie in its bytes.
fn numeral_parts(text: &str) -> (r: (usize, usize, usize, usize))
    requires
        numeral(text.spec_bytes()),
    ensures
        r.0 <= r.1 <= r.2 <= r.3 == text.spec_bytes().len(),
        whole_part(text.spec_bytes()) == text.spec_bytes().subrange(r.0 as int, r.1 as int),
        fraction_part(text.spec_bytes()) == text.spec_bytes().subrange(r.2 as int, r.3 as int),
        forall|j: int| r.0 <= j < r.1 ==> #[trigger] is_digit(text.spec_bytes()[j]),
        forall|j: int| r.2 <= j < r.3 ==> #[trigger] is_digit(text.spec_bytes()[j]),
{
    let b = text.as_bytes();
    let n = byte_len(text);
    let ghost t = b@;
    let ghost u = unsigned_part(t);
    let s = sign_len(b);
    proof {
        lemma_find_shift(t, s as int, 46u8, 0);
        lemma_find_from(t, 46u8, s as int);
    }
    match find_byte(b, 46, s) {
        Some(k) => {
            proof {
                assert(u.subrange(0, k - s) =~= t.subrange(s as int, k as int));
                assert(u.subrange(k - s + 1, u.len() as int) =~= t.subrange(k + 1, n as int));
                assert forall|j: int| s <= j < k implies #[trigger] is_digit(t[j]) by {
                    assert(t.subrange(s as int, k as int)[j - s] == t[j]);
                }
                assert forall|j: int| k + 1 <= j < n implies #[trigger] is_digit(t[j]) by {
                    assert(t.subrange(k + 1, n as int)[j - k - 1] == t[j]);
                }
            }
            (s, k, k + 1, n)
        },
        None => {
            proof {
                assert(u =~= t.subrange(s as int, n as int));
                assert forall|j: int| s <= j < n implies #[trigger] is_digit(t[j]) by {
                    assert(t.subrange(s as int, n as int)[j - s] == t[j]);
                }
                assert(t.subrange(n as int, n as int) =~= Seq::<u8>::empty());
            }
            (s, n, n, n)
        },
    }
}

/// First position in `b[a..c]` past its leading zeros.
fn skip_leading_zeros(b: &[u8], a: usize, c: usize) -> (w: usize)
    requires
        a <= c <= b@.len(),
    ensures
        a <= w <= c,
        strip_leading_zeros(b@.subrange(a as int, c as int)) == b@.subrange(w as int, c as int),
        w < c ==> b@[w as int] != 48u8,
{
    let mut w = a;
    while w < c && b[w] == 48
        invariant
            a <= w <= c <= b@.len(),
            forall|j: int| a <= j < w ==> b@[j] == 48u8,
        decreases c - w,
    {
        w += 1;
    }
    proof {
        let whole = b@.subrange(a as int, c as int);
        lemma_strip_leading(whole, w - a);
        assert(whole.subrange(w - a, whole.len() as int) =~= b@.subrange(w as int, c as int));
    }
    w
}

/// End of `b[a..c]` before its trailing zeros.
fn skip_trailing_zeros(b: &[u8], a: usize, c: usize) -> (f: usize)
    requires
        a <= c <= b@.len(),
    ensures
        a <= f <= c,
        strip_trailing_zeros(b@.subrange(a as int, c as int)) == b@.subrange(a as int, f as int),
        f > a ==> b@[f - 1] != 48u8,
{
    let mut f = c;
    while f > a && b[f - 1] == 48
        invariant
            a <= f <= c <= b@.len(),
            forall|j: int| f <= j < c ==> b@[j] == 48u8,
        decreases f - a,
    {
        f -= 1;
    }
    proof {
        let fraction = b@.subrange(a as int, c as int);
        lemma_strip_trailing(fraction, f - a);
        assert(fraction.subrange(0, f - a) =~= b@.subrange(a as int, f as int));
    }
    f
}

/// Appends the magnitude of a numeral whose parts lie at the given positions.
fn push_magnitude(out: &mut Vec<u8>, text: &str, wa: usize, wc: usize, fa: usize, fc: usize)
    requires
        wa <= wc <= fa <= fc == text.spec_bytes().len(),
        whole_part(text.spec_bytes()) == text.spec_bytes().subrange(wa as int, wc as int),
        fraction_part(text.spec_bytes()) == text.spec_bytes().subrange(fa as int, fc as int),
        forall|j: int| wa <= j < wc ==> #[trigger] is_digit(text.spec_bytes()[j]),
        forall|j: int| fa <= j < fc ==> #[trigger] is_digit(text.spec_bytes()[j]),
        valid_utf8(old(out)@),
    ensures
        final(out)@ == old(out)@ + magnitude(text.spec_bytes()),
        valid_utf8(final(out)@),
{
    let b = text.as_bytes();
    let ghost t = b@;
    let w = skip_leading_zeros(b, wa, wc);
    let f = skip_trailing_zeros(b, fa, fc);
    proof {
        if w < wc {
            assert(t.subrange(w as int, wc as int)[0] == t[w as int]);
        }
        if f > fa {
            assert(t.subrange(fa as int, f as int).last() == t[f - 1]);
        }
        assert forall|j: int| w <= j < wc implies #[trigger] t[j] < 0x80 by {
            assert(is_digit(t[j]));
        }
        assert forall|j: int| fa <= j < f implies #[trigger] t[j] < 0x80 by {
            assert(is_digit(t[j]));
        }
    }
    let ghost before = out@;
    if w == wc {
        push_ascii(out, 48);
    } else {
        push_range(out, b, w, wc);
    }
    if f > fa {
        push_ascii(out, 46);
        push_range(out, b, fa, f);
    }
    proof {
        let ws = if w == wc { seq![48u8] } else { t.subrange(w as int, wc as int) };
        let fs = t.subrange(fa as int, f as int);
        assert(out@ =~= before + (if fs.len() == 0 { ws } else { ws + seq![46u8] + fs }));
    }
}

/// Canonicalizes numeral digits textually, preserving arbitrary precision.
pub fn canonical_numeral(text: &str) -> (r: Result<String, SyntaxError>)
    ensures
        match spec_canonical_numeral(text.spec_bytes()) {
            Ok(c) => r matches Ok(s) && bytes(s) == c,
            Err(e) => r matches Err(x) && x@ == e,
        },
{
    if !is_numeral(text) {
        return Err(invalid("Invalid numeral"));
    }
    let b = text.as_bytes();
    let (wa, wc, fa, fc) = numeral_parts(text);
    let mut m: Vec<u8> = Vec::new();
    proof {
        lemma_empty_valid();
    }
    push_magnitude(&mut m, text, wa, wc, fa, fc);
    let zero = m.len() == 1 && m[0] == 48;
    proof {
        assert(zero == (m@ == seq![48u8])) by {
            if m@ == seq![48u8] {
                assert(m@[0] == 48u8);
            }
            if zero {
                assert(m@ =~= seq![48u8]);
            }
        }
    }
    if b.len() > 0 && b[0] == 45 && !zero {
        let mut out: Vec<u8> = Vec::new();
        push_ascii(&mut out, 45);
        let ghost mm = m@;
        let ghost o1 = out@;
        out.append(&mut m);
        proof {
            valid_utf8_concat(o1, mm);
        }
        Ok(string_from_bytes(out))
    } else {
        Ok(string_from_bytes(m))
    }
}

/// Whether raw content can be enclosed in quotes without changing its interpretation.
pub fn is_quotable_content(text: &str) -> (r: bool)
    ensures
        r == quotable(text.spec_bytes()),
{
    let b = text.as_bytes();
    let n = byte_len(text);
    let mut i: usize = 0;
    while i < n
        invariant
            b@ == text.spec_bytes(),
            n == b@.len(),
            i <= n + 1,
            quotable(b@) == quotable_from(b@, i as int),
        decreases n + 1 - i,
    {
        if b[i] == 34 {
            return false;
        }
        if b[i] == 92 {
            if i + 1 >= n {
                return false;
            }
            i += 2;
        } else {
            i += 1;
        }
    }
    true
}

/// Classifies an unquoted token without evaluating variables or math.
pub fn classify_unquoted(text: &str) -> (r: Scalar)
    ensures
        r@ == classify(text.spec_bytes()),
{
    let b = text.as_bytes();
    let yes = b.len() == 3 && b[0] == 121 && b[1] == 101 && b[2] == 115;
    let no = b.len() == 2 && b[0] == 110 && b[1] == 111;
    proof {
        assert(yes == (b@ == seq![121u8, 101u8, 115u8])) by {
            if b@ == seq![121u8, 101u8, 115u8] {
                assert(b@[0] == 121u8);
            }
            if yes {
                assert(b@ =~= seq![121u8, 101u8, 115u8]);
            }
        }
        assert(no == (b@ == seq![110u8, 111u8])) by {
            if b@ == seq![110u8, 111u8] {
                assert(b@[0] == 110u8);
            }
            if no {
                assert(b@ =~= seq![110u8, 111u8]);
            }
        }
    }
    if yes || no {
        Scalar::Bool { value: yes }
    } else {
        match canonical_numeral(text) {
            Ok(lexeme) => Scalar::Number { lexeme },
            Err(_) => {
                if b.len() > 0 && b[0] == 64 {
                    Scalar::Variable { name: text.to_owned() }
                } else {
                    Scalar::String { value: text.to_owned(), quoted: false }
                }
            },
        }
    }
}

/// Whether a string remains a string when written bare.
pub fn is_bare_string(text: &str) -> (r: bool)
    ensures
        r == bare_string(text.spec_bytes()),
{
    is_bare_token(text) && matches!(classify_unquoted(text), Scalar::String { .. })
}

/// Whether a string can be written bare or quoted.
pub fn is_writable_text(text: &str) -> (r: bool)
    ensures
        r == writable_text(text.spec_bytes()),
{
    is_bare_string(text) || is_quotable_content(text)
}

/// Whether a name can occur in a conditional-region opener.
pub fn is_param_name(text: &str) -> (r: bool)
    ensures
        r == param_name(text.spec_bytes()),
{
    is_bare_token(text)
}

/// Whether a variable token includes its `@` prefix and has no delimiters.
pub fn is_var_name(text: &str) -> (r: bool)
    ensures
        r == var_name(text.spec_bytes()),
{
    let b = text.as_bytes();
    b.len() > 0 && b[0] == 64 && is_bare_token(text)
}

/// Whether text is one complete inline-math token.
pub fn is_math_source(text: &str) -> (r: bool)
    ensures
        r == math_source(text.spec_bytes()),
{
    let b = text.as_bytes();
    let n = b.len();
    let open = if n >= 2 && b[0] == 64 && b[1] == 91 {
        2
    } else if n >= 3 && b[0] == 64 && b[1] == 92 && b[2] == 91 {
        3
    } else {
        return false;
    };
    let ghost body = b@.subrange(open as int, n as int);
    assert(math_body(b@) == Some(body));
    if n == open || b[n - 1] != 93 {
        return false;
    }
    let mut i = open;
    while i < n - 1
        invariant
            math_body(b@) == Some(body),
            b@ == text.spec_bytes(),
            open <= i <= n - 1,
            n == b@.len(),
            body == b@.subrange(open as int, n as int),
            forall|j: int| 0 <= j < i - open ==> #[trigger] body[j] != 93u8,
        decreases n - 1 - i,
    {
        if b[i] == 93 {
            assert(body[i - open] == 93u8);
            return false;
        }
        i += 1;
    }
    true
}

/// Whether text names a supported game-script operator.
pub fn is_operator(text: &str) -> (r: bool)
    ensures
        r == (op_of(text.spec_bytes()) is Some),
{
    Operator::parse(text).is_some()
}

pub open spec fn digit_run(t: Seq<u8>) -> bool {
    forall|i: int| 0 <= i < t.len() ==> is_digit(#[trigger] t[i])
}

proof fn lemma_strip_leading_digits(t: Seq<u8>)
    requires
        digit_run(t),
    ensures
        digit_run(strip_leading_zeros(t)),
        strip_leading_zeros(t).len() == 0 || strip_leading_zeros(t)[0] != 48u8,
        strip_leading_zeros(strip_leading_zeros(t)) == strip_leading_zeros(t),
    decreases t.len(),
{
    if t.len() > 0 && t[0] == 48u8 {
        lemma_strip_leading_digits(t.subrange(1, t.len() as int));
    }
}

proof fn lemma_strip_trailing_digits(t: Seq<u8>)
    requires
        digit_run(t),
    ensures
        digit_run(strip_trailing_zeros(t)),
        strip_trailing_zeros(t).len() == 0 || strip_trailing_zeros(t).last() != 48u8,
        strip_trailing_zeros(strip_trailing_zeros(t)) == strip_trailing_zeros(t),
    decreases t.len(),
{
    if t.len() > 0 && t.last() == 48u8 {
        lemma_strip_trailing_digits(t.drop_last());
    }
}

/// No point in an all-digit prefix: the first point of `w + [.] + f` follows `w`.
proof fn lemma_find_point(w: Seq<u8>, f: Seq<u8>)
    requires
        digit_run(w),
    ensures
        find_from(w, 46u8, 0) is None,
        find_from(w + seq![46u8] + f, 46u8, 0) == Some(w.len() as int),
{
    let m = w + seq![46u8] + f;
    lemma_find_from(w, 46u8, 0);
    lemma_find_from(m, 46u8, 0);
    assert(m[w.len() as int] == 46u8);
    if let Some(k) = find_from(w, 46u8, 0) {
        assert(is_digit(w[k]));
    }
    if let Some(k) = find_from(m, 46u8, 0) {
        if k < w.len() {
            assert(m[k] == w[k]);
            assert(is_digit(w[k]));
        }
    }
}

proof fn lemma_numeral_parts(t: Seq<u8>)
    requires
        numeral(t),
    ensures
        digit_run(whole_part(t)),
        digit_run(fraction_part(t)),
{
    let u = unsigned_part(t);
    lemma_find_from(u, 46u8, 0);
}

/// The parts of a canonical spelling: the whole digits without leading zeros (or `0`), and the
/// fraction digits without trailing zeros.
proof fn lemma_canonical_parts(t: Seq<u8>)
    requires
        numeral(t),
    ensures
        ({
            let sw = strip_leading_zeros(whole_part(t));
            let w = if sw.len() == 0 { seq![48u8] } else { sw };
            let f = strip_trailing_zeros(fraction_part(t));
            let c = canonical(t);
            &&& whole_part(c) == w
            &&& fraction_part(c) == f
            &&& unsigned_part(c) == magnitude(t)
            &&& digit_run(w) && digit_run(f)
            &&& (f.len() == 0 ==> find_from(unsigned_part(c), 46u8, 0) is None)
            &&& numeral(c)
            &&& canonical(c) == c
        }),
{
    lemma_numeral_parts(t);
    let sw = strip_leading_zeros(whole_part(t));
    lemma_strip_leading_digits(whole_part(t));
    let w = if sw.len() == 0 { seq![48u8] } else { sw };
    let f = strip_trailing_zeros(fraction_part(t));
    lemma_strip_trailing_digits(fraction_part(t));
    let m = magnitude(t);
    let c = canonical(t);
    assert(digit_run(w));
    lemma_find_point(w, f);
    assert(m.len() > 0 && is_digit(m[0]));
    assert(unsigned_part(c) == m) by {
        if c != m {
            assert(c.subrange(1, c.len() as int) =~= m);
        }
    }
    if f.len() == 0 {
        assert(m == w);
        assert(whole_part(c) == w);
        assert(fraction_part(c) =~= Seq::<u8>::empty());
    } else {
        assert(m.subrange(0, w.len() as int) =~= w);
        assert(m.subrange(w.len() as int + 1, m.len() as int) =~= f);
        assert(whole_part(c) == w);
        assert(fraction_part(c) == f);
    }
    assert(strip_leading_zeros(w) == if w == seq![48u8] { Seq::<u8>::empty() } else { w }) by {
        if w == seq![48u8] {
            assert(w.subrange(1, 1) =~= Seq::<u8>::empty());
        }
    }
    assert(magnitude(c) == m);
    if f.len() == 0 {
        lemma_find_from(w, 46u8, 0);
    }
}

/// The canonical spelling of a numeral is itself a numeral, and is its own canonical spelling.
pub proof fn law_canonical_fixpoint(t: Seq<u8>)
    requires
        numeral(t),
    ensures
        numeral(canonical(t)),
        canonical(canonical(t)) == canonical(t),
{
    lemma_canonical_parts(t);
}

/// The value of a run of decimal digits.
pub open spec fn digits_value(s: Seq<u8>) -> nat
    decreases s.len(),
{
    if s.len() == 0 {
        0
    } else {
        digits_value(s.drop_last()) * 10 + (s.last() - 48) as nat
    }
}

pub open spec fn pow10(n: nat) -> nat
    decreases n,
{
    if n == 0 {
        1
    } else {
        10 * pow10((n - 1) as nat)
    }
}

/// A numeral's value as a numerator over `10` to the number of fraction digits.
pub open spec fn numerator(t: Seq<u8>) -> int {
    let m = digits_value(whole_part(t)) * pow10(fraction_part(t).len()) + digits_value(fraction_part(t));
    if t.len() > 0 && t[0] == 45u8 { -m } else { m as int }
}

proof fn lemma_leading_zeros_value(s: Seq<u8>)
    ensures
        digits_value(strip_leading_zeros(s)) == digits_value(s),
    decreases s.len(),
{
    if s.len() > 0 && s[0] == 48u8 {
        let r = s.subrange(1, s.len() as int);
        lemma_leading_zeros_value(r);
        lemma_zero_prefix_value(r);
        assert(seq![48u8] + r =~= s);
    }
}

proof fn lemma_zero_prefix_value(r: Seq<u8>)
    ensures
        digits_value(seq![48u8] + r) == digits_value(r),
    decreases r.len(),
{
    if r.len() == 0 {
        assert((seq![48u8] + r).drop_last() =~= Seq::<u8>::empty());
    } else {
        lemma_zero_prefix_value(r.drop_last());
        assert((seq![48u8] + r).drop_last() =~= seq![48u8] + r.drop_last());
    }
}

proof fn lemma_pow10_add(a: nat, b: nat)
    ensures
        pow10(a + b) == pow10(a) * pow10(b),
        pow10(b) >= 1,
    decreases b,
{
    if b > 0 {
        let b1 = (b - 1) as nat;
        lemma_pow10_add(a, b1);
        assert(a + b == (a + b1) + 1);
        assert(pow10(a + b) == 10 * pow10(a + b1));
        assert(pow10(b) == 10 * pow10(b1));
        let x = pow10(a);
        let y = pow10(b1);
        assert(x * (10 * y) == 10 * (x * y)) by (nonlinear_arith);
        assert(pow10(a + b) == 10 * (x * y));
        assert(pow10(a) * pow10(b) == x * (10 * y));
    } else {
        assert(a + b == a);
        assert(pow10(b) == 1);
        assert(pow10(a) * 1 == pow10(a));
    }
}

proof fn lemma_trailing_zeros_value(s: Seq<u8>)
    ensures
        strip_trailing_zeros(s).len() <= s.len(),
        digits_value(s) == digits_value(strip_trailing_zeros(s)) * pow10((s.len() - strip_trailing_zeros(s).len()) as nat),
    decreases s.len(),
{
    let g = strip_trailing_zeros(s);
    if s.len() > 0 && s.last() == 48u8 {
        let d = s.drop_last();
        lemma_trailing_zeros_value(d);
        assert(g == strip_trailing_zeros(d));
        let k = (d.len() - g.len()) as nat;
        assert(digits_value(s) == digits_value(d) * 10 + 0);
        assert(digits_value(d) == digits_value(g) * pow10(k));
        assert((s.len() - g.len()) as nat == k + 1);
        assert(pow10(k + 1) == 10 * pow10(k));
        assert(digits_value(g) * pow10(k) * 10 == digits_value(g) * (10 * pow10(k))) by (nonlinear_arith);
    } else {
        assert(g == s);
        assert((s.len() - g.len()) as nat == 0);
        assert(pow10(0) == 1);
        assert(digits_value(s) * 1 == digits_value(s));
    }
}

/// A numeral's canonical spelling has the same decimal value, and its shape: no `+`, no `-0`, a
/// whole part that is `0` or starts with a nonzero digit, and a fraction part, if any, that does
/// not end in `0`.
pub proof fn law_canonical_value(t: Seq<u8>)
    requires
        numeral(t),
    ensures
        numerator(canonical(t)) * pow10(fraction_part(t).len()) == numerator(t) * pow10(fraction_part(canonical(t)).len()),
        canonical(t).len() > 0 && canonical(t)[0] != 43u8,
        canonical(t) != seq![45u8, 48u8],
        whole_part(canonical(t)) == seq![48u8] || (whole_part(canonical(t)).len() > 0 && whole_part(canonical(t))[0] != 48u8),
        fraction_part(canonical(t)).len() == 0 || fraction_part(canonical(t)).last() != 48u8,
        fraction_part(canonical(t)).len() == 0 ==> find_from(unsigned_part(canonical(t)), 46u8, 0) is None,
{
    lemma_canonical_parts(t);
    lemma_numeral_parts(t);
    let wt = whole_part(t);
    let ft = fraction_part(t);
    let sw = strip_leading_zeros(wt);
    lemma_strip_leading_digits(wt);
    lemma_strip_trailing_digits(ft);
    let w = if sw.len() == 0 { seq![48u8] } else { sw };
    let f = strip_trailing_zeros(ft);
    let c = canonical(t);
    let m = magnitude(t);
    lemma_leading_zeros_value(wt);
    lemma_trailing_zeros_value(ft);
    let k = (ft.len() - f.len()) as nat;
    lemma_pow10_add(f.len(), k);
    assert(ft.len() == f.len() + k);
    assert(digits_value(w) == digits_value(wt)) by {
        if sw.len() == 0 {
            assert(seq![48u8].drop_last() =~= Seq::<u8>::empty());
        }
    }
    let wv = digits_value(wt);
    let fv = digits_value(f);
    let pf = pow10(f.len());
    let pk = pow10(k);
    assert(digits_value(ft) == fv * pk);
    assert(pow10(ft.len()) == pf * pk);
    let mt = wv * (pf * pk) + fv * pk;
    let mc = wv * pf + fv;
    lemma_pow10_add(0, f.len());
    lemma_pow10_add(0, k);
    assert(mc * (pf * pk) == mt * pf) by (nonlinear_arith)
        requires
            mt == wv * (pf * pk) + fv * pk,
            mc == wv * pf + fv;
    assert(m[0] != 45u8 && m[0] != 43u8) by {
        assert(is_digit(w[0]));
        if f.len() > 0 {
            assert(m.subrange(0, w.len() as int) =~= w);
        }
    }
    let neg_t = t.len() > 0 && t[0] == 45u8;
    assert(numerator(t) == if neg_t { -mt } else { mt as int });
    let neg_c = c.len() > 0 && c[0] == 45u8;
    assert(digits_value(whole_part(c)) == wv && digits_value(fraction_part(c)) == fv);
    assert(numerator(c) == if neg_c { -mc } else { mc as int });
    assert(neg_c == (neg_t && m != seq![48u8]));
    if neg_t && m == seq![48u8] {
        assert(f.len() == 0) by {
            if f.len() > 0 {
                assert(m.len() > 1);
            }
        }
        assert(w == seq![48u8]);
        assert(sw.len() == 0) by {
            if sw.len() > 0 {
                assert(sw[0] != 48u8);
            }
        }
        assert(digits_value(sw) == 0);
        assert(wv == 0);
        assert(fv == 0) by {
            assert(f =~= Seq::<u8>::empty());
        }
        assert(mt == 0) by (nonlinear_arith)
            requires
                wv == 0,
                fv == 0,
                mt == wv * (pf * pk) + fv * pk;
        assert(mc == 0) by (nonlinear_arith)
            requires
                wv == 0,
                fv == 0,
                mc == wv * pf + fv;
        assert(numerator(c) == 0 && numerator(t) == 0);
        assert(numerator(c) * pow10(ft.len()) == numerator(t) * pow10(f.len())) by (nonlinear_arith)
            requires
                numerator(c) == 0,
                numerator(t) == 0;
    } else if neg_t {
        assert(numerator(c) * pow10(ft.len()) == numerator(t) * pow10(f.len())) by (nonlinear_arith)
            requires
                numerator(c) == -mc,
                numerator(t) == -mt,
                mc * (pf * pk) == mt * pf,
                pow10(ft.len()) == pf * pk,
                pow10(f.len()) == pf;
    } else {
        assert(numerator(c) * pow10(ft.len()) == numerator(t) * pow10(f.len())) by (nonlinear_arith)
            requires
                numerator(c) == mc,
                numerator(t) == mt,
                mc * (pf * pk) == mt * pf,
                pow10(ft.len()) == pf * pk,
                pow10(f.len()) == pf;
    }
    assert(c != seq![45u8, 48u8]) by {
        if c == seq![45u8, 48u8] {
            assert(c.subrange(1, 2) =~= seq![48u8]);
        }
    }
}

} // verus!
