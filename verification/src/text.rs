//! UTF-8 byte-level helpers shared by the scanners and writers.
use vstd::prelude::*;
use vstd::utf8::*;
use vstd::string::*;

verus! {

broadcast use vstd::seq_lib::group_seq_properties;

/// The UTF-8 bytes of a string value; every text property in this crate is stated over them.
pub open spec fn bytes(s: String) -> Seq<u8> {
    encode_utf8(s@)
}

/// Whether `i` is a position between two encoded characters of `b` (or its end).
pub open spec fn boundary(b: Seq<u8>, i: int) -> bool {
    i == b.len() || (0 <= i < b.len() && !is_continuation_byte(b[i]))
}

/// Number of newline bytes in `b[a..c]`.
pub open spec fn newlines(b: Seq<u8>, a: int, c: int) -> nat
    decreases c - a,
{
    if c <= a {
        0
    } else {
        newlines(b, a, c - 1) + if b[c - 1] == 10u8 { 1nat } else { 0nat }
    }
}

pub proof fn lemma_newlines_split(b: Seq<u8>, a: int, m: int, c: int)
    requires
        a <= m <= c,
    ensures
        newlines(b, a, c) == newlines(b, a, m) + newlines(b, m, c),
    decreases c - m,
{
    if m < c {
        lemma_newlines_split(b, a, m, c - 1);
    }
}

pub proof fn lemma_newlines_bound(b: Seq<u8>, a: int, c: int)
    requires
        a <= c,
    ensures
        newlines(b, a, c) <= c - a,
    decreases c - a,
{
    if a < c {
        lemma_newlines_bound(b, a, c - 1);
    }
}

pub proof fn lemma_newlines_sub(b: Seq<u8>, a: int, c: int, x: int, y: int)
    requires
        0 <= a <= x <= y <= c <= b.len(),
    ensures
        newlines(b.subrange(a, c), x - a, y - a) == newlines(b, x, y),
    decreases y - x,
{
    if x < y {
        lemma_newlines_sub(b, a, c, x, y - 1);
    }
}

pub proof fn lemma_encode_concat(a: Seq<char>, c: Seq<char>)
    ensures
        encode_utf8(a + c) == encode_utf8(a) + encode_utf8(c),
    decreases a.len(),
{
    if a.len() > 0 {
        assert((a + c).drop_first() == a.drop_first() + c);
        lemma_encode_concat(a.drop_first(), c);
    } else {
        assert(a + c == c);
    }
}

pub proof fn lemma_boundary_char(b: Seq<u8>, i: int)
    requires
        valid_utf8(b),
        0 <= i <= b.len(),
    ensures
        boundary(b, i) <==> is_char_boundary(b, i),
{
    is_char_boundary_start_end_of_seq(b);
    if i < b.len() {
        is_char_boundary_iff_not_is_continuation_byte(b, i);
    }
}

/// Valid UTF-8 never starts with a continuation byte.
proof fn lemma_valid_first(s: Seq<u8>)
    requires
        valid_utf8(s),
        s.len() > 0,
    ensures
        !is_continuation_byte(s[0]),
{
    is_char_boundary_iff_not_is_continuation_byte(s, 0);
}

/// The start of a string is a boundary.
pub proof fn lemma_boundary_start(s: &str)
    ensures
        boundary(s.spec_bytes(), 0),
{
    encode_utf8_valid_utf8(s@);
    if s.spec_bytes().len() > 0 {
        lemma_valid_first(s.spec_bytes());
    }
}

/// After an ASCII byte at a boundary comes another boundary.
pub proof fn lemma_ascii_next(b: Seq<u8>, i: int)
    requires
        valid_utf8(b),
        boundary(b, i),
        0 <= i < b.len(),
        b[i] < 0x80,
    ensures
        boundary(b, i + 1),
{
    lemma_boundary_char(b, i);
    valid_utf8_split(b, i);
    let s = b.subrange(i, b.len() as int);
    assert(s[0] == b[i]);
    assert(is_leading_byte_width_1(s[0]));
    reveal_with_fuel(valid_utf8, 2);
    assert(pop_first_scalar(s) =~= b.subrange(i + 1, b.len() as int));
    if i + 1 < b.len() {
        lemma_valid_first(b.subrange(i + 1, b.len() as int));
        assert(b.subrange(i + 1, b.len() as int)[0] == b[i + 1]);
    }
}

/// The byte after a leading byte-order mark starts a character.
pub proof fn lemma_bom_boundary(b: Seq<u8>)
    requires
        valid_utf8(b),
        b.len() >= 3,
        b[0] == 0xEFu8,
    ensures
        boundary(b, 3),
{
    reveal_with_fuel(valid_utf8, 2);
    assert(length_of_first_scalar(b) == 3);
    assert(pop_first_scalar(b) =~= b.subrange(3, b.len() as int));
    if b.len() > 3 {
        lemma_valid_first(b.subrange(3, b.len() as int));
        assert(b.subrange(3, b.len() as int)[0] == b[3]);
    }
}

/// The byte after a complete two- or three-byte character starts a character.
pub proof fn lemma_char_next(b: Seq<u8>, i: int, w: int)
    requires
        valid_utf8(b),
        boundary(b, i),
        0 <= i,
        i + w <= b.len(),
        (w == 2 && 0xC0u8 <= b[i] <= 0xDFu8) || (w == 3 && 0xE0u8 <= b[i] <= 0xEFu8),
    ensures
        boundary(b, i + w),
{
    lemma_boundary_char(b, i);
    valid_utf8_split(b, i);
    let s = b.subrange(i, b.len() as int);
    assert(s[0] == b[i]);
    reveal_with_fuel(valid_utf8, 2);
    assert(length_of_first_scalar(s) == w);
    assert(pop_first_scalar(s) =~= b.subrange(i + w, b.len() as int));
    if i + w < b.len() {
        lemma_valid_first(b.subrange(i + w, b.len() as int));
        assert(b.subrange(i + w, b.len() as int)[0] == b[i + w]);
    }
}

/// No newline byte in `b[a..c]` means no newlines are counted there.
pub proof fn lemma_no_newlines(b: Seq<u8>, a: int, c: int)
    requires
        forall|k: int| a <= k < c ==> b[k] != 10u8,
    ensures
        newlines(b, a, c) == 0,
    decreases c - a,
{
    if c > a {
        lemma_no_newlines(b, a, c - 1);
    }
}

/// Counts the newline bytes of `b`.
pub fn count_newlines(b: &[u8]) -> (r: usize)
    ensures
        r == newlines(b@, 0, b@.len() as int),
{
    let mut i: usize = 0;
    let mut count: usize = 0;
    while i < b.len()
        invariant
            i <= b@.len(),
            count == newlines(b@, 0, i as int),
            count <= i,
        decreases b@.len() - i,
    {
        if b[i] == 10 {
            count += 1;
        }
        i += 1;
    }
    count
}

/// An ASCII byte always starts a character.
pub proof fn lemma_ascii_boundary(b: Seq<u8>, i: int)
    requires
        0 <= i < b.len(),
        b[i] < 0x80,
    ensures
        boundary(b, i),
{
}

/// Cutting valid UTF-8 at two boundaries gives valid UTF-8 that encodes its own decoding.
pub proof fn lemma_valid_sub(b: Seq<u8>, i: int, j: int)
    requires
        valid_utf8(b),
        0 <= i <= j <= b.len(),
        boundary(b, i),
        boundary(b, j),
    ensures
        valid_utf8(b.subrange(i, j)),
        encode_utf8(decode_utf8(b.subrange(i, j))) == b.subrange(i, j),
{
    lemma_boundary_char(b, i);
    valid_utf8_split(b, i);
    let s = b.subrange(i, b.len() as int);
    if j < b.len() {
        assert(s[j - i] == b[j]);
    }
    lemma_boundary_char(s, j - i);
    valid_utf8_split(s, j - i);
    assert(s.subrange(0, j - i) =~= b.subrange(i, j));
    decode_utf8_encode_utf8(b.subrange(i, j));
}

/// Calls `str::len`, trusted to return the number of bytes of the string, at most `isize::MAX`
/// since Rust bounds every allocation, and so every `str`, by that many bytes.
#[verifier::external_body]
pub fn byte_len(text: &str) -> (n: usize)
    ensures
        n == text.spec_bytes().len(),
        n <= isize::MAX,
{
    text.len()
}

/// The slice `text[a..c]`, where both ends are character boundaries.
pub fn slice<'a>(text: &'a str, a: usize, c: usize) -> (r: &'a str)
    requires
        a <= c <= text.spec_bytes().len(),
        boundary(text.spec_bytes(), a as int),
        boundary(text.spec_bytes(), c as int),
    ensures
        r.spec_bytes() == text.spec_bytes().subrange(a as int, c as int),
{
    let ghost bs = text.spec_bytes();
    proof {
        encode_utf8_valid_utf8(text@);
        lemma_boundary_char(bs, a as int);
    }
    let (_, rest) = text.split_at(a);
    proof {
        assert(rest.spec_bytes() =~= bs.subrange(a as int, bs.len() as int));
        let rb = rest.spec_bytes();
        encode_utf8_valid_utf8(rest@);
        if (c - a) < rb.len() {
            assert(rb[(c - a) as int] == bs[c as int]);
        }
        lemma_boundary_char(rb, (c - a) as int);
    }
    let (mid, _) = rest.split_at(c - a);
    proof {
        assert(mid.spec_bytes() =~= bs.subrange(a as int, c as int));
    }
    mid
}

/// The owned text `text[a..c]`, where both ends are character boundaries.
pub fn substring(text: &str, a: usize, c: usize) -> (r: String)
    requires
        a <= c <= text.spec_bytes().len(),
        boundary(text.spec_bytes(), a as int),
        boundary(text.spec_bytes(), c as int),
    ensures
        bytes(r) == text.spec_bytes().subrange(a as int, c as int),
{
    slice(text, a, c).to_owned()
}

/// Calls `String::from_utf8` and unwraps it, trusted not to fail on valid UTF-8 and to keep
/// exactly the given bytes.
#[verifier::external_body]
pub fn string_from_bytes(b: Vec<u8>) -> (r: String)
    requires
        valid_utf8(b@),
    ensures
        bytes(r) == b@,
{
    String::from_utf8(b).unwrap()
}

/// Whether two byte slices hold the same bytes.
pub fn bytes_eq(a: &[u8], b: &[u8]) -> (r: bool)
    ensures
        r == (a@ == b@),
{
    if a.len() != b.len() {
        return false;
    }
    let mut i: usize = 0;
    while i < a.len()
        invariant
            a@.len() == b@.len(),
            i <= a@.len(),
            forall|j: int| 0 <= j < i ==> a@[j] == b@[j],
        decreases a@.len() - i,
    {
        if a[i] != b[i] {
            return false;
        }
        i += 1;
    }
    assert(a@ =~= b@);
    true
}

/// The empty byte sequence is valid UTF-8.
pub proof fn lemma_empty_valid()
    ensures
        valid_utf8(Seq::<u8>::empty()),
{
    reveal_with_fuel(valid_utf8, 1);
}

/// A single ASCII byte is valid UTF-8 on its own.
pub proof fn lemma_ascii_valid(c: u8)
    requires
        c < 0x80,
    ensures
        valid_utf8(seq![c]),
{
    reveal_with_fuel(valid_utf8, 2);
    assert(pop_first_scalar(seq![c]) =~= Seq::<u8>::empty());
}

/// Appends an ASCII byte to a byte buffer that holds valid UTF-8.
pub fn push_ascii(out: &mut Vec<u8>, c: u8)
    requires
        c < 0x80,
        valid_utf8(old(out)@),
    ensures
        final(out)@ == old(out)@.push(c),
        valid_utf8(final(out)@),
{
    proof {
        lemma_ascii_valid(c);
        valid_utf8_concat(old(out)@, seq![c]);
        assert(old(out)@ + seq![c] == old(out)@.push(c));
    }
    out.push(c);
}

/// Appends the bytes of `s` to a byte buffer that holds valid UTF-8.
pub fn push_str(out: &mut Vec<u8>, s: &str)
    requires
        valid_utf8(old(out)@),
    ensures
        final(out)@ == old(out)@ + s.spec_bytes(),
        valid_utf8(final(out)@),
{
    let b = s.as_bytes();
    let n = b.len();
    let ghost start = out@;
    proof {
        encode_utf8_valid_utf8(s@);
    }
    let mut i: usize = 0;
    while i < n
        invariant
            n == b@.len(),
            b@ == s.spec_bytes(),
            i <= n,
            out@ == start + b@.subrange(0, i as int),
        decreases n - i,
    {
        out.push(b[i]);
        i += 1;
        assert(out@ == start + b@.subrange(0, i as int));
    }
    assert(b@.subrange(0, n as int) == b@);
    proof {
        valid_utf8_concat(start, s.spec_bytes());
    }
}

/// The bytes of an ASCII string literal.
pub proof fn lemma_lit_bytes(s: &str, b: Seq<u8>)
    requires
        s@.len() == b.len(),
        forall|i: int| 0 <= i < b.len() ==> b[i] < 0x80 && #[trigger] s@[i] == b[i] as char,
    ensures
        s.spec_bytes() == b,
{
    assert(is_ascii_chars(s@));
    is_ascii_chars_encode_utf8(s@);
    assert(s.spec_bytes() =~= b);
}

/// Decimal digits of `n`.
pub open spec fn decimal(n: nat) -> Seq<u8>
    decreases n,
{
    if n < 10 {
        seq![(48 + n) as u8]
    } else {
        decimal(n / 10).push((48 + n % 10) as u8)
    }
}

} // verus!
