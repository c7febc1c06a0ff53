//! Source locations, errors, and the byte scanner and token cursor shared by both parsers.
use vstd::prelude::*;
use vstd::utf8::*;
use vstd::string::*;
use crate::text::{
    boundary, byte_len, bytes, decimal, lemma_ascii_next, lemma_newlines_bound,
    lemma_newlines_split, newlines, push_ascii, push_str, string_from_bytes, substring,
};

verus! {

broadcast use vstd::seq_lib::group_seq_properties;

/// Half-open UTF-8 byte range and one-based source lines.
#[derive(Clone, Copy, Debug, PartialEq, Eq, Structural)]
pub struct Span {
    /// First byte, inclusive.
    pub start: usize,
    /// Last byte, exclusive.
    pub end: usize,
    /// Line containing the first byte.
    pub line: usize,
    /// Line containing the last token.
    pub end_line: usize,
}

/// The all-zero location.
pub open spec fn zero_span() -> Span {
    Span { start: 0, end: 0, line: 0, end_line: 0 }
}

impl Default for Span {
    fn default() -> (s: Self)
        ensures
            s == zero_span(),
    {
        Span { start: 0, end: 0, line: 0, end_line: 0 }
    }
}

/// `a` extended to finish where `b` finishes.
pub open spec fn through(a: Span, b: Span) -> Span {
    Span { end: b.end, end_line: b.end_line, ..a }
}

impl Span {
    pub(crate) fn through(self, end: Self) -> (r: Self)
        ensures
            r == through(self, end),
    {
        Self { end: end.end, end_line: end.end_line, ..self }
    }
}

/// Distinguishes malformed syntax from a resource limit.
#[derive(Clone, Copy, Debug, PartialEq, Eq, Structural)]
pub enum ErrorKind {
    /// Text does not satisfy the selected language grammar.
    Syntax,
    /// Nesting exceeded the supported bound; never a region-text fallback.
    NestingLimit,
}

/// A source-qualified failure. Repairs are returned separately by each parser.
#[derive(Clone, Debug, PartialEq, Eq)]
pub struct SyntaxError {
    /// Diagnostic file label supplied by the caller.
    pub file: String,
    /// Location of the failure.
    pub span: Span,
    /// Failure category.
    pub kind: ErrorKind,
    /// Explanation for a reader.
    pub message: String,
}

/// A failure with its texts as UTF-8 bytes.
pub struct ErrorView {
    pub file: Seq<u8>,
    pub span: Span,
    pub kind: ErrorKind,
    pub message: Seq<u8>,
}

impl View for SyntaxError {
    type V = ErrorView;

    open spec fn view(&self) -> ErrorView {
        ErrorView { file: bytes(self.file), span: self.span, kind: self.kind, message: bytes(self.message) }
    }
}

/// The syntax error that `error` builds.
pub open spec fn syntax_error(file: Seq<u8>, span: Span, message: Seq<u8>) -> ErrorView {
    ErrorView { file, span, kind: ErrorKind::Syntax, message }
}

/// The text `file:line: message` that describes an error to a reader.
pub open spec fn error_text(e: ErrorView) -> Seq<u8> {
    e.file + seq![58u8] + decimal(e.span.line as nat) + seq![58u8, 32u8] + e.message
}

/// Decimal digits are ASCII and therefore valid UTF-8.
proof fn lemma_decimal_valid(n: nat)
    ensures
        valid_utf8(decimal(n)),
        forall|i: int| 0 <= i < decimal(n).len() ==> 48 <= #[trigger] decimal(n)[i] <= 57,
    decreases n,
{
    if n < 10 {
        crate::text::lemma_ascii_valid((48 + n) as u8);
    } else {
        lemma_decimal_valid(n / 10);
        crate::text::lemma_ascii_valid((48 + n % 10) as u8);
        valid_utf8_concat(decimal(n / 10), seq![(48 + n % 10) as u8]);
        assert(decimal(n / 10) + seq![(48 + n % 10) as u8] == decimal(n));
    }
}

/// Appends the decimal digits of `n`.
fn push_decimal(out: &mut Vec<u8>, n: usize)
    requires
        valid_utf8(old(out)@),
    ensures
        final(out)@ == old(out)@ + decimal(n as nat),
        valid_utf8(final(out)@),
    decreases n,
{
    proof {
        lemma_decimal_valid(n as nat);
    }
    if n >= 10 {
        push_decimal(out, n / 10);
        push_ascii(out, (48 + n % 10) as u8);
    } else {
        push_ascii(out, (48 + n) as u8);
    }
}

impl SyntaxError {
    /// The `file:line: message` text of this error.
    pub fn to_string(&self) -> (r: String)
        ensures
            bytes(r) == error_text(self@),
    {
        let mut out: Vec<u8> = Vec::new();
        proof {
            crate::text::lemma_empty_valid();
        }
        push_str(&mut out, self.file.as_str());
        push_ascii(&mut out, 58);
        push_decimal(&mut out, self.span.line);
        push_ascii(&mut out, 58);
        push_ascii(&mut out, 32);
        push_str(&mut out, self.message.as_str());
        assert(out@ =~= error_text(self@));
        string_from_bytes(out)
    }
}

pub(crate) fn error(file: &str, span: Span, message: &str) -> (r: SyntaxError)
    ensures
        r@ == syntax_error(file.spec_bytes(), span, message.spec_bytes()),
{
    SyntaxError { file: file.to_owned(), span, kind: ErrorKind::Syntax, message: message.to_owned() }
}

/// Where the quoted string whose opening quote is at `open` closes: scans from `i`, with
/// `escaped` set when the previous byte was an unescaped backslash.
pub open spec fn quote_close(b: Seq<u8>, i: int, escaped: bool) -> Option<int>
    decreases b.len() - i,
{
    if i >= b.len() || i < 0 {
        None
    } else if escaped {
        quote_close(b, i + 1, false)
    } else if b[i] == 92u8 {
        quote_close(b, i + 1, true)
    } else if b[i] == 34u8 {
        Some(i)
    } else {
        quote_close(b, i + 1, false)
    }
}

/// The closing quote of the string opened at `open`, skipping backslash escapes.
pub open spec fn spec_quoted_end(b: Seq<u8>, open: int) -> Option<int> {
    quote_close(b, open + 1, false)
}

pub proof fn lemma_quote_close(b: Seq<u8>, i: int, escaped: bool)
    requires
        0 <= i,
    ensures
        quote_close(b, i, escaped) matches Some(e) ==> i <= e < b.len() && b[e] == 34u8,
    decreases b.len() - i,
{
    if i < b.len() {
        if escaped || b[i] != 34u8 {
            lemma_quote_close(b, i + 1, b[i] == 92u8 && !escaped);
        }
    }
}

pub(crate) fn quoted_end(text: &str, open: usize) -> (r: Option<usize>)
    requires
        open < text.spec_bytes().len(),
    ensures
        r matches Some(e) ==> spec_quoted_end(text.spec_bytes(), open as int) == Some(e as int),
        r is None ==> spec_quoted_end(text.spec_bytes(), open as int) is None,
{
    let b = text.as_bytes();
    let n = byte_len(text);
    let mut i = open + 1;
    let mut escaped = false;
    while i < n
        invariant
            b@ == text.spec_bytes(),
            n == b@.len(),
            open < i <= n,
            spec_quoted_end(b@, open as int) == quote_close(b@, i as int, escaped),
        decreases n - i,
    {
        if escaped {
            escaped = false;
        } else if b[i] == 92 {
            escaped = true;
        } else if b[i] == 34 {
            return Some(i);
        }
        i += 1;
    }
    None
}

/// A byte-position scanner over source text, tracking lines and an absolute base offset.
pub struct Scanner<'a> {
    pub text: &'a str,
    pub bytes: &'a [u8],
    pub offset: usize,
    pub line: usize,
    pub base: usize,
}

impl<'a> Scanner<'a> {
    pub open spec fn src(&self) -> Seq<u8> {
        self.text.spec_bytes()
    }

    pub open spec fn wf(&self) -> bool {
        &&& self.bytes@ == self.text.spec_bytes()
        &&& self.offset <= self.src().len()
        &&& boundary(self.src(), self.offset as int)
        &&& self.base + self.src().len() <= usize::MAX
        &&& self.line + newlines(self.src(), self.offset as int, self.src().len() as int) <= usize::MAX
    }

    pub fn new(text: &'a str, base: usize, line: usize) -> (s: Self)
        requires
            base + text.spec_bytes().len() <= usize::MAX,
            line + newlines(text.spec_bytes(), 0, text.spec_bytes().len() as int) <= usize::MAX,
        ensures
            s.wf(),
            s.text == text,
            s.offset == 0,
            s.base == base,
            s.line == line,
    {
        proof {
            crate::text::lemma_boundary_start(text);
        }
        Self { text, bytes: text.as_bytes(), offset: 0, base, line }
    }

    pub fn rest(&self) -> (r: &'a str)
        requires
            self.wf(),
        ensures
            r.spec_bytes() == self.src().subrange(self.offset as int, self.src().len() as int),
    {
        proof {
            encode_utf8_valid_utf8(self.text@);
            crate::text::lemma_boundary_char(self.src(), self.offset as int);
        }
        let (_, rest) = self.text.split_at(self.offset);
        rest
    }

    pub fn byte(&self) -> (r: Option<u8>)
        requires
            self.wf(),
        ensures
            self.offset < self.src().len() ==> r == Some(self.src()[self.offset as int]),
            self.offset == self.src().len() ==> r is None,
    {
        if self.offset < self.bytes.len() {
            Some(self.bytes[self.offset])
        } else {
            None
        }
    }

    pub fn mark(&self) -> (r: Span)
        requires
            self.wf(),
        ensures
            r == (Span {
                start: (self.base + self.offset) as usize,
                end: (self.base + self.offset) as usize,
                line: self.line,
                end_line: self.line,
            }),
    {
        Span {
            start: self.base + self.offset,
            end: self.base + self.offset,
            line: self.line,
            end_line: self.line,
        }
    }

    pub fn advance(&mut self, n: usize)
        requires
            old(self).wf(),
            old(self).offset + n <= old(self).src().len(),
            boundary(old(self).src(), old(self).offset + n),
        ensures
            final(self).wf(),
            final(self).text == old(self).text,
            final(self).base == old(self).base,
            final(self).offset == old(self).offset + n,
            final(self).line == old(self).line + newlines(
                old(self).src(),
                old(self).offset as int,
                old(self).offset + n,
            ),
    {
        let ghost b = self.src();
        let ghost start = self.offset as int;
        let ghost line0 = self.line as int;
        let end = self.offset + n;
        let ghost t0 = self.text;
        let ghost base0 = self.base;
        proof {
            lemma_newlines_split(b, start, end as int, b.len() as int);
            lemma_newlines_split(b, start, start, end as int);
        }
        while self.offset < end
            invariant
                self.bytes@ == b,
                self.text == t0,
                self.base == base0,
                t0.spec_bytes() == b,
                start <= self.offset <= end <= b.len(),
                self.line == line0 + newlines(b, start, self.offset as int),
                line0 + newlines(b, start, b.len() as int) <= usize::MAX,
                self.base + b.len() <= usize::MAX,
            decreases end - self.offset,
        {
            proof {
                lemma_newlines_split(b, start, self.offset + 1, b.len() as int);
                lemma_newlines_split(b, self.offset + 1, self.offset + 1, b.len() as int);
            }
            if self.bytes[self.offset] == 10 {
                self.line = self.line + 1;
            }
            self.offset = self.offset + 1;
        }
        proof {
            lemma_newlines_split(b, start, end as int, b.len() as int);
        }
    }

    pub fn finish(&self, start: Span) -> (r: Span)
        requires
            self.wf(),
        ensures
            r == (Span { end: (self.base + self.offset) as usize, end_line: self.line, ..start }),
    {
        Span { end: self.base + self.offset, end_line: self.line, ..start }
    }

    /// Skips to the next newline or the end, leaving the newline unread.
    pub fn comment(&mut self)
        requires
            old(self).wf(),
        ensures
            final(self).wf(),
            final(self).text == old(self).text,
            final(self).base == old(self).base,
            final(self).line == old(self).line,
            final(self).offset == line_end(old(self).src(), old(self).offset as int),
    {
        let n = self.bytes.len();
        let mut i = self.offset;
        while i < n && self.bytes[i] != 10
            invariant
                self.wf(),
                n == self.src().len(),
                self.offset <= i <= n,
                line_end(self.src(), self.offset as int) == line_end(self.src(), i as int),
                newlines(self.src(), self.offset as int, i as int) == 0,
            decreases n - i,
        {
            i += 1;
        }
        proof {
            if i < n {
                crate::text::lemma_ascii_boundary(self.src(), i as int);
            }
        }
        self.advance(i - self.offset);
    }

    /// Reads the quoted string at the cursor, returning its raw content.
    pub fn quoted(&mut self, file: &str) -> (r: Result<String, SyntaxError>)
        requires
            old(self).wf(),
            old(self).offset < old(self).src().len(),
            old(self).src()[old(self).offset as int] == 34u8,
        ensures
            final(self).text == old(self).text,
            final(self).base == old(self).base,
            match spec_quoted_end(old(self).src(), old(self).offset as int) {
                None => {
                    &&& r matches Err(e) && e@ == syntax_error(
                        file.spec_bytes(),
                        old(self).mark_spec(),
                        "Unterminated quoted string".spec_bytes(),
                    )
                    &&& *final(self) == *old(self)
                },
                Some(e) => {
                    &&& r matches Ok(s) && bytes(s) == old(self).src().subrange(old(self).offset + 1, e)
                    &&& final(self).wf()
                    &&& final(self).offset == e + 1
                    &&& final(self).line == old(self).line + newlines(old(self).src(), old(self).offset as int, e + 1)
                },
            },
    {
        let start = self.mark();
        match quoted_end(self.text, self.offset) {
            None => Err(error(file, start, "Unterminated quoted string")),
            Some(end) => {
                proof {
                    lemma_quote_close(self.src(), self.offset + 1, false);
                    encode_utf8_valid_utf8(self.text@);
                    lemma_ascii_next(self.src(), self.offset as int);
                    lemma_ascii_next(self.src(), end as int);
                }
                let value = substring(self.text, self.offset + 1, end);
                self.advance(end + 1 - self.offset);
                Ok(value)
            },
        }
    }

    pub open spec fn mark_spec(&self) -> Span {
        Span {
            start: (self.base + self.offset) as usize,
            end: (self.base + self.offset) as usize,
            line: self.line,
            end_line: self.line,
        }
    }
}

/// The position of the first newline at or after `i`, or the end.
pub open spec fn line_end(b: Seq<u8>, i: int) -> int
    decreases b.len() - i,
{
    if i >= b.len() || i < 0 {
        b.len() as int
    } else if b[i] == 10u8 {
        i
    } else {
        line_end(b, i + 1)
    }
}

/// A cursor over owned tokens; the next token is the last element of the stack.
pub struct Cursor<T> {
    pub tokens: Vec<T>,
}

impl<T> Cursor<T> {
    /// The tokens not yet taken, in order.
    pub open spec fn rest(&self) -> Seq<T> {
        Seq::new(self.tokens@.len(), |i: int| self.tokens@[self.tokens@.len() - 1 - i])
    }

    pub fn new(tokens: Vec<T>) -> (c: Self)
        ensures
            c.rest() == tokens@,
    {
        let mut tokens = tokens;
        let ghost orig = tokens@;
        let mut stack: Vec<T> = Vec::new();
        while tokens.len() > 0
            invariant
                orig == tokens@ + Seq::new(stack@.len(), |i: int| stack@[i]).reverse(),
            decreases tokens.len(),
        {
            let t = tokens.pop().unwrap();
            stack.push(t);
            assert(orig =~= tokens@ + Seq::new(stack@.len(), |i: int| stack@[i]).reverse());
        }
        let c = Self { tokens: stack };
        assert(c.rest() =~= orig);
        c
    }

    pub fn peek(&self) -> (r: Option<&T>)
        ensures
            self.rest().len() > 0 ==> r == Some(&self.rest()[0]),
            self.rest().len() == 0 ==> r is None,
    {
        let n = self.tokens.len();
        if n > 0 {
            Some(&self.tokens[n - 1])
        } else {
            None
        }
    }

    pub fn nth(&self, k: usize) -> (r: Option<&T>)
        ensures
            k < self.rest().len() ==> r == Some(&self.rest()[k as int]),
            k >= self.rest().len() ==> r is None,
    {
        let n = self.tokens.len();
        if k < n {
            Some(&self.tokens[n - 1 - k])
        } else {
            None
        }
    }

    pub fn take(&mut self) -> (r: Option<T>)
        ensures
            old(self).rest().len() > 0 ==> r == Some(old(self).rest()[0]) && final(self).rest()
                == old(self).rest().drop_first(),
            old(self).rest().len() == 0 ==> r is None && final(self).rest() == old(self).rest(),
    {
        let r = self.tokens.pop();
        proof {
            if old(self).rest().len() > 0 {
                assert(final(self).rest() =~= old(self).rest().drop_first());
            }
        }
        r
    }
}

} // verus!
