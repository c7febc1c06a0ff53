use vstd::prelude::*;
use vstd::string::*;
use vstd::utf8::*;
use super::representable::{find_from, lemma_find_from, param_name, term_byte, terminates, is_param_name};
use crate::source::{
    ErrorView, Scanner, Span, SyntaxError, error, lemma_quote_close, line_end, quoted_end,
    spec_quoted_end, syntax_error,
};
use crate::text::{boundary, bytes, byte_len, lemma_ascii_next, newlines, slice, substring};

verus! {

broadcast use vstd::seq_lib::group_seq_properties;

#[derive(Clone, Copy, Debug, PartialEq, Eq, Structural)]
pub enum Kind {
    Word,
    Op,
    Open,
    Close,
    Math,
    Region,
    Bracket,
}

#[derive(Debug)]
pub struct Token {
    pub kind: Kind,
    pub text: String,
    pub quoted: bool,
    pub span: Span,
    pub body: String,
    pub body_start: usize,
}

/// A token with its texts as UTF-8 bytes.
pub struct TokenView {
    pub kind: Kind,
    pub text: Seq<u8>,
    pub quoted: bool,
    pub span: Span,
    pub body: Seq<u8>,
    pub body_start: usize,
}

impl View for Token {
    type V = TokenView;

    open spec fn view(&self) -> TokenView {
        TokenView {
            kind: self.kind,
            text: bytes(self.text),
            quoted: self.quoted,
            span: self.span,
            body: bytes(self.body),
            body_start: self.body_start,
        }
    }
}

pub open spec fn tokens_view(v: Seq<Token>) -> Seq<TokenView> {
    v.map_values(|t: Token| t@)
}

/// Separators skipped between tokens.
pub open spec fn is_space(c: u8) -> bool {
    c == 32u8 || c == 9u8 || c == 13u8 || c == 10u8 || c == 11u8 || c == 12u8 || c == 59u8
}

/// `b[i..]` starts an inline-math token, `@[` or `@\[`.
pub open spec fn math_open_at(b: Seq<u8>, i: int) -> bool {
    (0 <= i && i + 1 < b.len() && b[i] == 64u8 && b[i + 1] == 91u8) || (0 <= i && i + 2 < b.len()
        && b[i] == 64u8 && b[i + 1] == 92u8 && b[i + 2] == 91u8)
}

/// `b[i..]` starts a conditional-region opener `[[`.
pub open spec fn region_open_at(b: Seq<u8>, i: int) -> bool {
    0 <= i && i + 1 < b.len() && b[i] == 91u8 && b[i + 1] == 91u8
}

pub proof fn lemma_line_end(b: Seq<u8>, i: int)
    requires
        0 <= i,
    ensures
        i <= line_end(b, i) <= b.len() || (i > b.len() && line_end(b, i) == b.len()),
        line_end(b, i) < b.len() ==> b[line_end(b, i)] == 10u8,
        forall|j: int| i <= j < line_end(b, i) ==> b[j] != 10u8,
    decreases b.len() - i,
{
    if i < b.len() && b[i] != 10u8 {
        lemma_line_end(b, i + 1);
    }
}

/// Scans a conditional-region body from `i` at the given nesting depth for its closing `]`,
/// skipping comments, quoted strings, inline math, and nested openers.
pub open spec fn region_scan(b: Seq<u8>, i: int, depth: int) -> Option<int>
    decreases b.len() - i,
{
    if i < 0 || i >= b.len() {
        None
    } else if b[i] == 35u8 {
        proof {
            lemma_line_end(b, i);
        }
        region_scan(b, line_end(b, i), depth)
    } else if b[i] == 34u8 {
        match spec_quoted_end(b, i) {
            None => None,
            Some(e) => {
                proof {
                    lemma_quote_close(b, i + 1, false);
                }
                region_scan(b, e + 1, depth)
            },
        }
    } else if math_open_at(b, i) {
        match find_from(b, 93u8, i) {
            None => None,
            Some(k) => {
                proof {
                    lemma_find_from(b, 93u8, i);
                }
                region_scan(b, k + 1, depth)
            },
        }
    } else if region_open_at(b, i) {
        match find_from(b, 93u8, i) {
            None => None,
            Some(k) => {
                proof {
                    lemma_find_from(b, 93u8, i);
                }
                region_scan(b, k + 1, depth + 1)
            },
        }
    } else if b[i] == 93u8 {
        if depth - 1 == 0 {
            Some(i)
        } else {
            region_scan(b, i + 1, depth - 1)
        }
    } else {
        region_scan(b, i + 1, depth)
    }
}

pub proof fn lemma_region_scan(b: Seq<u8>, i: int, depth: int)
    requires
        0 <= i,
    ensures
        region_scan(b, i, depth) matches Some(e) ==> i <= e < b.len() && b[e] == 93u8,
    decreases b.len() - i,
{
    if 0 <= i < b.len() {
        if b[i] == 35u8 {
            lemma_line_end(b, i);
            lemma_region_scan(b, line_end(b, i), depth);
        } else if b[i] == 34u8 {
            lemma_quote_close(b, i + 1, false);
            if let Some(e) = spec_quoted_end(b, i) {
                lemma_region_scan(b, e + 1, depth);
            }
        } else if math_open_at(b, i) || region_open_at(b, i) {
            lemma_find_from(b, 93u8, i);
            if let Some(k) = find_from(b, 93u8, i) {
                lemma_region_scan(b, k + 1, if math_open_at(b, i) { depth } else { depth + 1 });
            }
        } else if b[i] == 93u8 {
            if depth - 1 != 0 {
                lemma_region_scan(b, i + 1, depth - 1);
            }
        } else {
            lemma_region_scan(b, i + 1, depth);
        }
    }
}

/// The first terminator at or after `i`, or the end.
pub open spec fn word_end(b: Seq<u8>, i: int) -> int
    decreases b.len() - i,
{
    if i < 0 || i >= b.len() {
        b.len() as int
    } else if term_byte(b[i]) {
        i
    } else {
        word_end(b, i + 1)
    }
}

pub proof fn lemma_word_end(b: Seq<u8>, i: int)
    requires
        0 <= i <= b.len(),
    ensures
        i <= word_end(b, i) <= b.len(),
        word_end(b, i) < b.len() ==> term_byte(b[word_end(b, i)]),
        forall|j: int| i <= j < word_end(b, i) ==> !term_byte(b[j]),
    decreases b.len() - i,
{
    if i < b.len() && !term_byte(b[i]) {
        lemma_word_end(b, i + 1);
    }
}

/// A parameter name with its negation mark removed.
pub open spec fn strip_bang(t: Seq<u8>) -> Seq<u8> {
    if t.len() > 0 && t[0] == 33u8 {
        t.subrange(1, t.len() as int)
    } else {
        t
    }
}

/// One scanning step from byte `pos` on line `line`.
pub enum LexStep {
    Done,
    Skip(int, int),
    Tok(TokenView, int, int),
    Fail(ErrorView),
}

pub open spec fn at(base: int, pos: int, line: int) -> Span {
    Span { start: (base + pos) as usize, end: (base + pos) as usize, line: line as usize, end_line: line as usize }
}

/// A token of `kind` and `text` spanning `b[pos..e]`.
pub open spec fn simple_tok(
    b: Seq<u8>,
    base: int,
    pos: int,
    line: int,
    e: int,
    kind: Kind,
    text: Seq<u8>,
    quoted: bool,
) -> LexStep {
    let nl = line + newlines(b, pos, e);
    LexStep::Tok(
        TokenView {
            kind,
            text,
            quoted,
            span: Span { end: (base + e) as usize, end_line: nl as usize, ..at(base, pos, line) },
            body: Seq::empty(),
            body_start: 0,
        },
        e,
        nl,
    )
}

pub open spec fn lex_step(b: Seq<u8>, base: int, file: Seq<u8>, pos: int, line: int) -> LexStep {
    if pos < 0 || pos >= b.len() {
        LexStep::Done
    } else {
        let ch = b[pos];
        let start = at(base, pos, line);
        if is_space(ch) {
            LexStep::Skip(pos + 1, line + if ch == 10u8 { 1int } else { 0int })
        } else if ch == 35u8 {
            LexStep::Skip(line_end(b, pos), line)
        } else if ch == 123u8 || ch == 125u8 || ch == 93u8 {
            let kind = if ch == 123u8 {
                Kind::Open
            } else if ch == 125u8 {
                Kind::Close
            } else {
                Kind::Bracket
            };
            simple_tok(b, base, pos, line, pos + 1, kind, seq![ch], false)
        } else if ch == 34u8 {
            match spec_quoted_end(b, pos) {
                None => LexStep::Fail(
                    syntax_error(file, start, "Unterminated quoted string".spec_bytes()),
                ),
                Some(e) => simple_tok(b, base, pos, line, e + 1, Kind::Word, b.subrange(pos + 1, e), true),
            }
        } else if ch == 64u8 && math_open_at(b, pos) {
            match find_from(b, 93u8, pos) {
                None => LexStep::Fail(
                    syntax_error(file, start, "Unterminated inline math".spec_bytes()),
                ),
                Some(k) => simple_tok(b, base, pos, line, k + 1, Kind::Math, b.subrange(pos, k + 1), false),
            }
        } else if ch == 91u8 && region_open_at(b, pos) {
            match find_from(b, 93u8, pos) {
                None => LexStep::Fail(
                    syntax_error(file, start, "Unterminated parameter opener".spec_bytes()),
                ),
                Some(opener) => {
                    let name = b.subrange(pos + 2, opener);
                    if !param_name(strip_bang(name)) {
                        LexStep::Fail(
                            syntax_error(file, start, "Invalid parameter name".spec_bytes()),
                        )
                    } else {
                        match region_scan(b, opener + 1, 1) {
                            None => LexStep::Fail(
                                syntax_error(
                                    file,
                                    start,
                                    "Unterminated parameter region".spec_bytes(),
                                ),
                            ),
                            Some(end) => {
                                let nl = line + newlines(b, pos, end + 1);
                                LexStep::Tok(
                                    TokenView {
                                        kind: Kind::Region,
                                        text: name,
                                        quoted: false,
                                        span: Span {
                                            end: (base + end + 1) as usize,
                                            end_line: nl as usize,
                                            ..start
                                        },
                                        body: b.subrange(opener + 1, end),
                                        body_start: (base + opener + 1) as usize,
                                    },
                                    end + 1,
                                    nl,
                                )
                            },
                        }
                    }
                },
            }
        } else if ch == 61u8 || ch == 60u8 || ch == 62u8 || ch == 33u8 {
            let eq_next = pos + 1 < b.len() && b[pos + 1] == 61u8;
            if ch == 33u8 && !eq_next {
                LexStep::Fail(syntax_error(file, start, "Unexpected '!'".spec_bytes()))
            } else {
                let size = if ch != 61u8 && eq_next { 2int } else { 1int };
                simple_tok(b, base, pos, line, pos + size, Kind::Op, b.subrange(pos, pos + size), false)
            }
        } else {
            let e = word_end(b, pos);
            if e == pos {
                LexStep::Fail(syntax_error(file, start, "Unexpected delimiter".spec_bytes()))
            } else if b[e - 1] == 63u8 && e < b.len() && b[e] == 61u8 {
                LexStep::Fail(syntax_error(file, start, "Unsupported operator '?='".spec_bytes()))
            } else {
                simple_tok(b, base, pos, line, e, Kind::Word, b.subrange(pos, e), false)
            }
        }
    }
}

/// Every step moves forward.
pub proof fn lemma_lex_step(b: Seq<u8>, base: int, file: Seq<u8>, pos: int, line: int)
    requires
        0 <= pos < b.len(),
    ensures
        lex_step(b, base, file, pos, line) matches LexStep::Skip(p, _) ==> pos < p <= b.len(),
        lex_step(b, base, file, pos, line) matches LexStep::Tok(_, p, _) ==> pos < p <= b.len(),
        !(lex_step(b, base, file, pos, line) is Done),
{
    lemma_line_end(b, pos);
    lemma_quote_close(b, pos + 1, false);
    lemma_find_from(b, 93u8, pos);
    lemma_word_end(b, pos);
    if let Some(opener) = find_from(b, 93u8, pos) {
        lemma_region_scan(b, opener + 1, 1);
    }
}

pub open spec fn prepend(t: TokenView, r: Result<Seq<TokenView>, ErrorView>) -> Result<Seq<TokenView>, ErrorView> {
    match r {
        Ok(ts) => Ok(seq![t] + ts),
        Err(e) => Err(e),
    }
}

/// The tokens of `b` from `pos` on, or the first lexical error.
pub open spec fn lex_from(b: Seq<u8>, base: int, file: Seq<u8>, pos: int, line: int) -> Result<Seq<TokenView>, ErrorView>
    decreases b.len() - pos,
{
    if pos < 0 || pos >= b.len() {
        Ok(Seq::empty())
    } else {
        proof {
            lemma_lex_step(b, base, file, pos, line);
        }
        match lex_step(b, base, file, pos, line) {
            LexStep::Done => Ok(Seq::empty()),
            LexStep::Skip(p, l) => lex_from(b, base, file, p, l),
            LexStep::Tok(t, p, l) => prepend(t, lex_from(b, base, file, p, l)),
            LexStep::Fail(e) => Err(e),
        }
    }
}

/// The tokens of a whole text whose first byte lies at `base` on line `line`.
pub open spec fn lex(b: Seq<u8>, base: int, file: Seq<u8>, line: int) -> Result<Seq<TokenView>, ErrorView> {
    lex_from(b, base, file, 0, line)
}

pub(crate) fn math_open(b: &[u8], i: usize) -> (r: bool)
    ensures
        r == math_open_at(b@, i as int),
{
    let n = b.len();
    (i < n && n - i >= 2 && b[i] == 64 && b[i + 1] == 91) || (i < n && n - i >= 3 && b[i] == 64
        && b[i + 1] == 92 && b[i + 2] == 91)
}

fn find_close_bracket(b: &[u8], from: usize) -> (r: Option<usize>)
    requires
        from <= b@.len(),
    ensures
        r matches Some(k) ==> find_from(b@, 93u8, from as int) == Some(k as int),
        r is None ==> find_from(b@, 93u8, from as int) is None,
{
    let mut i = from;
    while i < b.len()
        invariant
            from <= i <= b@.len(),
            find_from(b@, 93u8, from as int) == find_from(b@, 93u8, i as int),
        decreases b@.len() - i,
    {
        if b[i] == 93 {
            return Some(i);
        }
        i += 1;
    }
    None
}

pub(crate) fn region_end(text: &str, start: usize) -> (r: Option<usize>)
    requires
        start <= text.spec_bytes().len(),
    ensures
        r matches Some(e) ==> region_scan(text.spec_bytes(), start as int, 1) == Some(e as int),
        r is None ==> region_scan(text.spec_bytes(), start as int, 1) is None,
{
    let b = text.as_bytes();
    let n = byte_len(text);
    let mut index = start;
    let mut depth: usize = 1;
    while index < n
        invariant
            b@ == text.spec_bytes(),
            n == b@.len(),
            start <= index <= n,
            1 <= depth <= index - start + 1,
            region_scan(b@, start as int, 1) == region_scan(b@, index as int, depth as int),
        decreases n - index,
    {
        if b[index] == 35 {
            let mut j = index;
            while j < n && b[j] != 10
                invariant
                    index <= j <= n,
                    n == b@.len(),
                    line_end(b@, index as int) == line_end(b@, j as int),
                decreases n - j,
            {
                j += 1;
            }
            proof {
                lemma_line_end(b@, index as int);
            }
            index = j;
        } else if b[index] == 34 {
            match quoted_end(text, index) {
                None => return None,
                Some(e) => {
                    proof {
                        lemma_quote_close(b@, index + 1, false);
                    }
                    index = e + 1;
                },
            }
        } else if math_open(b, index) {
            match find_close_bracket(b, index) {
                None => return None,
                Some(k) => {
                    proof {
                        lemma_find_from(b@, 93u8, index as int);
                    }
                    index = k + 1;
                },
            }
        } else if index + 1 < n && b[index] == 91 && b[index + 1] == 91 {
            match find_close_bracket(b, index) {
                None => return None,
                Some(k) => {
                    proof {
                        lemma_find_from(b@, 93u8, index as int);
                    }
                    depth += 1;
                    index = k + 1;
                },
            }
        } else if b[index] == 93 {
            depth -= 1;
            if depth == 0 {
                return Some(index);
            }
            index += 1;
        } else {
            index += 1;
        }
    }
    None
}

/// The executable outcome of one scanning step.
pub enum Scanned {
    Done,
    Skip,
    Tok(Token),
    Fail(SyntaxError),
}

/// What one scanning step reports, given the step the specification takes.
pub open spec fn scanned_matches(step: LexStep, r: Scanned, s: Scanner) -> bool {
    match step {
        LexStep::Done => r is Done,
        LexStep::Skip(p, l) => r is Skip && s.wf() && s.offset == p && s.line == l,
        LexStep::Tok(t, p, l) => r matches Scanned::Tok(tok) && tok@ == t && s.wf() && s.offset == p
            && s.line == l,
        LexStep::Fail(e) => r matches Scanned::Fail(x) && x@ == e,
    }
}

fn scan_region<'a>(s: &mut Scanner<'a>, file: &str) -> (r: Scanned)
    requires
        old(s).wf(),
        region_open_at(old(s).src(), old(s).offset as int),
    ensures
        final(s).text == old(s).text,
        final(s).base == old(s).base,
        scanned_matches(
            lex_step(old(s).src(), old(s).base as int, file.spec_bytes(), old(s).offset as int, old(s).line as int),
            r,
            *final(s),
        ),
{
    let ghost b = s.src();
    let pos = s.offset;
    let start = s.mark();
    proof {
        encode_utf8_valid_utf8(s.text@);
        lemma_find_from(b, 93u8, pos as int);
    }
    let opener = match find_close_bracket(s.bytes, pos) {
        None => return Scanned::Fail(error(file, start, "Unterminated parameter opener")),
        Some(k) => k,
    };
    proof {
        lemma_ascii_next(b, pos as int);
        lemma_ascii_next(b, pos + 1);
    }
    let negated = opener > pos + 2 && s.bytes[pos + 2] == 33;
    let bare_from = if negated { pos + 3 } else { pos + 2 };
    proof {
        if negated {
            lemma_ascii_next(b, pos + 2);
        }
        assert(strip_bang(b.subrange(pos + 2, opener as int)) =~= b.subrange(bare_from as int, opener as int));
    }
    let bare = slice(s.text, bare_from, opener);
    if !is_param_name(bare) {
        return Scanned::Fail(error(file, start, "Invalid parameter name"));
    }
    proof {
        lemma_ascii_next(b, opener as int);
        lemma_region_scan(b, opener + 1, 1);
    }
    let end = match region_end(s.text, opener + 1) {
        None => return Scanned::Fail(error(file, start, "Unterminated parameter region")),
        Some(e) => e,
    };
    proof {
        lemma_ascii_next(b, end as int);
    }
    let name = substring(s.text, pos + 2, opener);
    let body = substring(s.text, opener + 1, end);
    let body_start = s.base + opener + 1;
    s.advance(end + 1 - pos);
    let span = s.finish(start);
    Scanned::Tok(Token { kind: Kind::Region, text: name, quoted: false, span, body, body_start })
}

fn scan_word<'a>(s: &mut Scanner<'a>, file: &str) -> (r: Scanned)
    requires
        old(s).wf(),
        old(s).offset < old(s).src().len(),
    ensures
        final(s).text == old(s).text,
        final(s).base == old(s).base,
        ({
            let b = old(s).src();
            let pos = old(s).offset as int;
            let e = word_end(b, pos);
            let start = at(old(s).base as int, pos, old(s).line as int);
            if e == pos {
                r matches Scanned::Fail(x) && x@ == syntax_error(file.spec_bytes(), start, "Unexpected delimiter".spec_bytes())
            } else if b[e - 1] == 63u8 && e < b.len() && b[e] == 61u8 {
                r matches Scanned::Fail(x) && x@ == syntax_error(file.spec_bytes(), start, "Unsupported operator '?='".spec_bytes())
            } else {
                scanned_matches(
                    simple_tok(b, old(s).base as int, pos, old(s).line as int, e, Kind::Word, b.subrange(pos, e), false),
                    r,
                    *final(s),
                )
            }
        }),
{
    let ghost b = s.src();
    let pos = s.offset;
    let start = s.mark();
    let n = s.bytes.len();
    let mut e = pos;
    while e < n && !terminates(s.bytes[e] as char)
        invariant
            pos <= e <= n,
            n == b.len(),
            s.bytes@ == b,
            word_end(b, pos as int) == word_end(b, e as int),
        decreases n - e,
    {
        e += 1;
    }
    if e == pos {
        return Scanned::Fail(error(file, start, "Unexpected delimiter"));
    }
    if s.bytes[e - 1] == 63 && e < n && s.bytes[e] == 61 {
        return Scanned::Fail(error(file, start, "Unsupported operator '?='"));
    }
    proof {
        lemma_word_end(b, pos as int);
        lemma_newlines_zero(b, pos as int, e as int);
    }
    let text = substring(s.text, pos, e);
    s.advance(e - pos);
    let span = s.finish(start);
    Scanned::Tok(Token { kind: Kind::Word, text, quoted: false, span, body: String::new(), body_start: 0 })
}

proof fn lemma_newlines_zero(b: Seq<u8>, a: int, c: int)
    requires
        0 <= a <= c <= b.len(),
        forall|j: int| a <= j < c ==> !term_byte(b[j]),
    ensures
        newlines(b, a, c) == 0,
    decreases c - a,
{
    if a < c {
        assert(!term_byte(b[c - 1]));
        lemma_newlines_zero(b, a, c - 1);
    }
}

/// Scans a fixed-size token of `size` ASCII bytes.
fn scan_fixed<'a>(s: &mut Scanner<'a>, kind: Kind, size: usize) -> (r: Scanned)
    requires
        old(s).wf(),
        1 <= size <= 2,
        old(s).offset + size <= old(s).src().len(),
        forall|j: int| old(s).offset <= j < old(s).offset + size ==> old(s).src()[j] < 0x80,
    ensures
        final(s).text == old(s).text,
        final(s).base == old(s).base,
        scanned_matches(
            simple_tok(
                old(s).src(),
                old(s).base as int,
                old(s).offset as int,
                old(s).line as int,
                old(s).offset + size,
                kind,
                old(s).src().subrange(old(s).offset as int, old(s).offset + size),
                false,
            ),
            r,
            *final(s),
        ),
{
    let ghost b = s.src();
    let pos = s.offset;
    let start = s.mark();
    proof {
        encode_utf8_valid_utf8(s.text@);
        lemma_ascii_next(b, pos as int);
        if size == 2 {
            lemma_ascii_next(b, pos + 1);
        }
    }
    let text = substring(s.text, pos, pos + size);
    s.advance(size);
    let span = s.finish(start);
    Scanned::Tok(Token { kind, text, quoted: false, span, body: String::new(), body_start: 0 })
}

fn scan_one<'a>(s: &mut Scanner<'a>, file: &str) -> (r: Scanned)
    requires
        old(s).wf(),
    ensures
        final(s).text == old(s).text,
        final(s).base == old(s).base,
        scanned_matches(
            lex_step(old(s).src(), old(s).base as int, file.spec_bytes(), old(s).offset as int, old(s).line as int),
            r,
            *final(s),
        ),
{
    let ghost b = s.src();
    let ch = match s.byte() {
        None => return Scanned::Done,
        Some(c) => c,
    };
    let pos = s.offset;
    proof {
        encode_utf8_valid_utf8(s.text@);
    }
    if ch == 32 || ch == 9 || ch == 13 || ch == 10 || ch == 11 || ch == 12 || ch == 59 {
        proof {
            lemma_ascii_next(b, pos as int);
            assert(newlines(b, pos as int, pos + 1) == if ch == 10u8 { 1nat } else { 0nat });
        }
        s.advance(1);
        return Scanned::Skip;
    }
    if ch == 35 {
        s.comment();
        return Scanned::Skip;
    }
    if ch == 123 || ch == 125 || ch == 93 {
        let kind = if ch == 123 {
            Kind::Open
        } else if ch == 125 {
            Kind::Close
        } else {
            Kind::Bracket
        };
        let r = scan_fixed(s, kind, 1);
        assert(b.subrange(pos as int, pos + 1) =~= seq![ch]);
        return r;
    }
    if ch == 34 {
        let start = s.mark();
        proof {
            lemma_quote_close(b, pos + 1, false);
        }
        return match s.quoted(file) {
            Ok(text) => {
                let span = s.finish(start);
                Scanned::Tok(Token { kind: Kind::Word, text, quoted: true, span, body: String::new(), body_start: 0 })
            },
            Err(e) => Scanned::Fail(e),
        };
    }
    if ch == 64 && math_open(s.bytes, pos) {
        let start = s.mark();
        proof {
            lemma_find_from(b, 93u8, pos as int);
        }
        let k = match find_close_bracket(s.bytes, pos) {
            None => return Scanned::Fail(error(file, start, "Unterminated inline math")),
            Some(k) => k,
        };
        proof {
            lemma_ascii_next(b, k as int);
        }
        let text = substring(s.text, pos, k + 1);
        s.advance(k + 1 - pos);
        let span = s.finish(start);
        return Scanned::Tok(Token { kind: Kind::Math, text, quoted: false, span, body: String::new(), body_start: 0 });
    }
    if ch == 91 && pos + 1 < s.bytes.len() && s.bytes[pos + 1] == 91 {
        return scan_region(s, file);
    }
    if ch == 61 || ch == 60 || ch == 62 || ch == 33 {
        let eq_next = pos + 1 < s.bytes.len() && s.bytes[pos + 1] == 61;
        if ch == 33 && !eq_next {
            let start = s.mark();
            return Scanned::Fail(error(file, start, "Unexpected '!'"));
        }
        let size = if ch != 61 && eq_next { 2 } else { 1 };
        return scan_fixed(s, Kind::Op, size);
    }
    scan_word(s, file)
}

pub(crate) fn tokenize(text: &str, file: &str, base: usize, line: usize) -> (r: Result<Vec<Token>, SyntaxError>)
    requires
        base + text.spec_bytes().len() <= usize::MAX,
        line + newlines(text.spec_bytes(), 0, text.spec_bytes().len() as int) <= usize::MAX,
    ensures
        match lex(text.spec_bytes(), base as int, file.spec_bytes(), line as int) {
            Ok(ts) => r matches Ok(v) && tokens_view(v@) == ts,
            Err(e) => r matches Err(x) && x@ == e,
        },
{
    let ghost b = text.spec_bytes();
    let ghost fb = file.spec_bytes();
    let mut s = Scanner::new(text, base, line);
    let mut tokens: Vec<Token> = Vec::new();
    loop
        invariant
            s.wf(),
            s.text == text,
            s.base == base,
            b == text.spec_bytes(),
            fb == file.spec_bytes(),
            lex(b, base as int, fb, line as int) == prepend_all(
                tokens_view(tokens@),
                lex_from(b, base as int, fb, s.offset as int, s.line as int),
            ),
        decreases b.len() - s.offset,
    {
        let ghost p0 = s.offset as int;
        let ghost l0 = s.line as int;
        proof {
            if p0 < b.len() {
                lemma_lex_step(b, base as int, fb, p0, l0);
            }
        }
        let r = scan_one(&mut s, file);
        match r {
            Scanned::Done => {
                assert(lex_from(b, base as int, fb, p0, l0) == Ok::<Seq<TokenView>, ErrorView>(Seq::empty()));
                assert(tokens_view(tokens@) + Seq::<TokenView>::empty() =~= tokens_view(tokens@));
                return Ok(tokens);
            },
            Scanned::Skip => {},
            Scanned::Tok(t) => {
                let ghost tv = t@;
                let ghost before = tokens@;
                tokens.push(t);
                proof {
                    lemma_prepend_all_push(tokens_view(before), tv, lex_from(b, base as int, fb, s.offset as int, s.line as int));
                    assert(tokens_view(tokens@) =~= tokens_view(before).push(tv));
                }
            },
            Scanned::Fail(e) => {
                assert(lex_from(b, base as int, fb, p0, l0) == Err::<Seq<TokenView>, ErrorView>(e@));
                return Err(e);
            },
        }
    }
}

pub open spec fn prepend_all(ts: Seq<TokenView>, r: Result<Seq<TokenView>, ErrorView>) -> Result<Seq<TokenView>, ErrorView> {
    match r {
        Ok(rest) => Ok(ts + rest),
        Err(e) => Err(e),
    }
}

proof fn lemma_prepend_all_push(ts: Seq<TokenView>, t: TokenView, r: Result<Seq<TokenView>, ErrorView>)
    ensures
        prepend_all(ts, prepend(t, r)) == prepend_all(ts.push(t), r),
{
    if let Ok(rest) = r {
        assert(ts + (seq![t] + rest) =~= ts.push(t) + rest);
    }
}

/// The share of the remaining work a token carries: region bodies are tokenized again.
pub open spec fn token_weight(t: TokenView) -> int {
    if t.kind == Kind::Region {
        1 + 3 * t.body.len() as int
    } else {
        1
    }
}

pub open spec fn tokens_weight(s: Seq<TokenView>) -> int
    decreases s.len(),
{
    if s.len() == 0 {
        0
    } else {
        token_weight(s[0]) + tokens_weight(s.drop_first())
    }
}

proof fn lemma_prepend_weight(t: TokenView, ts: Seq<TokenView>)
    ensures
        tokens_weight(seq![t] + ts) == token_weight(t) + tokens_weight(ts),
{
    assert((seq![t] + ts).drop_first() =~= ts);
}

/// Tokens cost at most three weight units per byte they cover.
pub proof fn lemma_lex_weight(b: Seq<u8>, base: int, file: Seq<u8>, pos: int, line: int)
    requires
        0 <= pos <= b.len(),
    ensures
        lex_from(b, base, file, pos, line) matches Ok(ts) ==> 0 <= tokens_weight(ts) <= 3 * (b.len() - pos),
    decreases b.len() - pos,
{
    if pos < b.len() {
        lemma_lex_step(b, base, file, pos, line);
        lemma_find_from(b, 93u8, pos);
        match lex_step(b, base, file, pos, line) {
            LexStep::Skip(p, l) => {
                lemma_lex_weight(b, base, file, p, l);
            },
            LexStep::Tok(t, p, l) => {
                lemma_lex_weight(b, base, file, p, l);
                if let Ok(ts) = lex_from(b, base, file, p, l) {
                    lemma_prepend_weight(t, ts);
                }
                if t.kind == Kind::Region {
                    let opener = find_from(b, 93u8, pos).unwrap();
                    lemma_region_scan(b, opener + 1, 1);
                }
            },
            _ => {},
        }
    }
}

/// Region tokens lie within the bounds of the text they were read from.
pub open spec fn token_fits(t: TokenView) -> bool {
    t.kind == Kind::Region ==> t.body_start + t.body.len() <= usize::MAX && t.span.line + newlines(
        t.body,
        0,
        t.body.len() as int,
    ) <= usize::MAX
}

pub proof fn lemma_lex_fits(b: Seq<u8>, base: int, file: Seq<u8>, pos: int, line: int)
    requires
        0 <= pos <= b.len(),
        0 <= base,
        0 <= line,
        base + b.len() <= usize::MAX,
        line + newlines(b, pos, b.len() as int) <= usize::MAX,
    ensures
        lex_from(b, base, file, pos, line) matches Ok(ts) ==> forall|i: int|
            0 <= i < ts.len() ==> #[trigger] token_fits(ts[i]),
    decreases b.len() - pos,
{
    if pos < b.len() {
        lemma_lex_step(b, base, file, pos, line);
        lemma_find_from(b, 93u8, pos);
        match lex_step(b, base, file, pos, line) {
            LexStep::Skip(p, l) => {
                crate::text::lemma_newlines_split(b, pos, p, b.len() as int);
                lemma_lex_fits(b, base, file, p, l);
            },
            LexStep::Tok(t, p, l) => {
                crate::text::lemma_newlines_split(b, pos, p, b.len() as int);
                lemma_lex_fits(b, base, file, p, l);
                if t.kind == Kind::Region {
                    let opener = find_from(b, 93u8, pos).unwrap();
                    lemma_region_scan(b, opener + 1, 1);
                    let end = region_scan(b, opener + 1, 1).unwrap();
                    crate::text::lemma_newlines_sub(b, opener + 1, end, opener + 1, end);
                    crate::text::lemma_newlines_split(b, pos, opener + 1, b.len() as int);
                    crate::text::lemma_newlines_split(b, opener + 1, end, b.len() as int);
                    assert(t.body =~= b.subrange(opener + 1, end));
                }
                if let Ok(ts) = lex_from(b, base, file, p, l) {
                    assert forall|i: int| 0 <= i < ts.len() + 1 implies #[trigger] token_fits(
                        (seq![t] + ts)[i],
                    ) by {
                        if i > 0 {
                            assert((seq![t] + ts)[i] == ts[i - 1]);
                        }
                    }
                }
            },
            _ => {},
        }
    }
}

} // verus!
