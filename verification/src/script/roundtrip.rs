//! What reading gives back of canonical writing.
use vstd::prelude::*;
use vstd::string::*;
use super::ast::{
    EntryView, ItemKindView, ItemView, Operator, ScalarView, ValueView, law_operator_spelling, op_of,
    op_spelling,
};
use super::lexer::{
    Kind, LexStep, TokenView, lex, lex_from, lex_step, lemma_lex_step, lemma_word_end, prepend, prepend_all,
    simple_tok, word_end, math_open_at, region_open_at, is_space, region_scan, lemma_region_scan, strip_bang,
};
use super::representable::{
    bare_key, bare_string, bare_token, canonical, classify, find_from, lemma_find_from, math_body,
    math_source, numeral, quotable, quotable_from, term_byte, var_name, is_terminator, unsigned_part,
    digits, is_digit, starts_with_bom,
};
use super::serialize::{
    spec_quoted_text, spec_scalar_text, spec_serialize, then, w_item, w_items, tabs, w_body, block_text,
    region_open, region_close,
    lemma_w_body, header_text, all_scalars, scalar_list, inline_text, w_scalar_body, item_size, items_size,
    nesting_error,
};
use super::ast::ContainerView;
use super::region_read::{lemma_text_run, region_lexes, region_reads_at, tok_fit};
use crate::MAX_NESTING_DEPTH;
use super::parser::{
    AttachView, FrameView, Iteration, advance_spec, iterate_spec, run_spec, set_top, token_scalar,
    push_container_spec, complete_container_spec,
    lemma_iterate_decreases, lemma_frames_weight_nonneg, root_frame, frames_weight, spec_parse,
    source_text, end_span, is_negated, complete_region_spec, complete_region_frame, needs_verbatim,
    region_text_item,
};
use crate::source::{Span, through};
use super::walk::{strip_item, strip_items, lemma_strip_items};
use crate::source::{ErrorView, quote_close, spec_quoted_end, line_end};
use super::lexer::lemma_line_end;
use super::ast::region_source;

verus! {

broadcast use vstd::seq_lib::group_seq_properties;

/// A string scalar that reads back unchanged: quoted, or a bare token that reads as a string.
pub open spec fn canonical_scalar(s: ScalarView) -> bool {
    s matches ScalarView::Str { value, quoted } ==> quoted || bare_string(value)
}

/// How a string scalar reads back after writing: one that is written quoted reads back quoted.
pub open spec fn canon_scalar(s: ScalarView) -> ScalarView {
    match s {
        ScalarView::Str { value, quoted } => if quoted || bare_string(value) {
            s
        } else {
            ScalarView::Str { value, quoted: true }
        },
        _ => s,
    }
}

/// An item with every scalar as it reads back after writing, at every depth.
pub open spec fn canon_item(i: ItemView) -> ItemView
    decreases i,
{
    ItemView {
        kind: match i.kind {
            ItemKindView::Entry(e) => ItemKindView::Entry(EntryView {
                key: e.key,
                op: e.op,
                value: match e.value {
                    ValueView::Scalar(v) => ValueView::Scalar(canon_scalar(v)),
                    ValueView::Container(c) => ValueView::Container(ContainerView { header: c.header, items: canon_items(c.items) }),
                },
            }),
            ItemKindView::Scalar(v) => ItemKindView::Scalar(canon_scalar(v)),
            ItemKindView::Container(c) => ItemKindView::Container(ContainerView { header: c.header, items: canon_items(c.items) }),
            ItemKindView::Param { name, negated, items } => ItemKindView::Param { name, negated, items: canon_items(items) },
            ItemKindView::ParamText { name, negated, text } => ItemKindView::ParamText { name, negated, text },
        },
        span: i.span,
    }
}

pub open spec fn canon_items(s: Seq<ItemView>) -> Seq<ItemView>
    decreases s,
{
    if s.len() == 0 {
        Seq::empty()
    } else {
        seq![canon_item(s[0])] + canon_items(s.subrange(1, s.len() as int))
    }
}

/// The bytes at `pos` are `x`.
pub open spec fn holds_at(b: Seq<u8>, pos: int, x: Seq<u8>) -> bool {
    0 <= pos && pos + x.len() <= b.len() && b.subrange(pos, pos + x.len()) == x
}

proof fn lemma_holds_index(b: Seq<u8>, pos: int, x: Seq<u8>, k: int)
    requires
        holds_at(b, pos, x),
        0 <= k < x.len(),
    ensures
        b[pos + k] == x[k],
{
    assert(b.subrange(pos, pos + x.len())[k] == b[pos + k]);
}

proof fn lemma_quote_scan(b: Seq<u8>, pos: int, t: Seq<u8>, i: int)
    requires
        holds_at(b, pos + 1, t),
        pos + 1 + t.len() < b.len(),
        b[pos + 1 + t.len()] == 34u8,
        0 <= pos,
        0 <= i <= t.len(),
        quotable_from(t, i),
    ensures
        quote_close(b, pos + 1 + i, false) == Some(pos + 1 + t.len()),
    decreases t.len() - i,
{
    if i < t.len() {
        lemma_holds_index(b, pos + 1, t, i);
        if t[i] == 92u8 {
            lemma_holds_index(b, pos + 1, t, i + 1);
            lemma_quote_scan(b, pos, t, i + 2);
            assert(quote_close(b, pos + 2 + i, true) == quote_close(b, pos + 3 + i, false));
        } else {
            lemma_quote_scan(b, pos, t, i + 1);
        }
    }
}

/// A bare token followed by a terminator reads as one word.
proof fn lemma_bare_word(b: Seq<u8>, base: int, file: Seq<u8>, pos: int, line: int, x: Seq<u8>)
    requires
        holds_at(b, pos, x),
        bare_token(x),
        pos + x.len() <= b.len(),
        pos + x.len() < b.len() ==> (b[pos + x.len()] == 32u8 || b[pos + x.len()] == 10u8),
    ensures
        lex_step(b, base, file, pos, line) == simple_tok(b, base, pos, line, pos + x.len(), Kind::Word, x, false),
{
    let e = pos + x.len();
    assert forall|j: int| pos <= j < e implies !term_byte(b[j]) by {
        lemma_holds_index(b, pos, x, j - pos);
    }
    lemma_word_end_at(b, pos, e);
    lemma_holds_index(b, pos, x, 0);
    let ch = b[pos];
    assert(!term_byte(ch));
    assert(!math_open_at(b, pos)) by {
        if pos + 1 < e {
            lemma_holds_index(b, pos, x, 1);
        }
        if pos + 2 < e {
            lemma_holds_index(b, pos, x, 2);
        }
    }
    assert(b.subrange(pos, e) == x);
}

proof fn lemma_word_end_at(b: Seq<u8>, pos: int, e: int)
    requires
        0 <= pos <= e <= b.len(),
        forall|j: int| pos <= j < e ==> !term_byte(b[j]),
        e < b.len() ==> term_byte(b[e]),
    ensures
        word_end(b, pos) == e,
    decreases e - pos,
{
    if pos < e {
        lemma_word_end_at(b, pos + 1, e);
    }
}

/// A canonical numeral is a bare token.
#[verifier::rlimit(40)]
#[verifier::spinoff_prover]
proof fn lemma_numeral_bare(t: Seq<u8>)
    requires
        numeral(t),
        canonical(t) == t,
    ensures
        bare_token(t),
        t != seq![121u8, 101u8, 115u8],
        t != seq![110u8, 111u8],
{
    let u = unsigned_part(t);
    lemma_find_from(u, 46u8, 0);
    assert(t.len() > 0);
    assert forall|i: int| 0 <= i < t.len() implies !term_byte(#[trigger] t[i]) by {
        if u.len() < t.len() {
            if i > 0 {
                assert(u[i - 1] == t[i]);
            }
        } else {
            assert(u[i] == t[i]);
        }
        match find_from(u, 46u8, 0) {
            Some(k) => {
                let j = if u.len() < t.len() { i - 1 } else { i };
                if 0 <= j < k {
                    assert(u.subrange(0, k)[j] == u[j]);
                } else if j > k {
                    assert(u.subrange(k + 1, u.len() as int)[j - k - 1] == u[j]);
                }
            },
            None => {},
        }
    }
    if t == seq![121u8, 101u8, 115u8] || t == seq![110u8, 111u8] {
        assert(u == t);
        match find_from(u, 46u8, 0) {
            Some(k) => {
                if k > 0 {
                    assert(u.subrange(0, k)[0] == u[0]);
                } else {
                    assert(u.subrange(k + 1, u.len() as int)[0] == u[1]);
                }
            },
            None => {
                assert(is_digit(u[0]));
            },
        }
    }
}

/// A variable name reads as a variable.
proof fn lemma_var_classify(t: Seq<u8>)
    requires
        var_name(t),
    ensures
        classify(t) == (ScalarView::Var { name: t }),
{
    let u = unsigned_part(t);
    assert(u == t);
    lemma_find_from(u, 46u8, 0);
    assert(!numeral(t)) by {
        match find_from(u, 46u8, 0) {
            Some(k) => {
                if k > 0 {
                    assert(u.subrange(0, k)[0] == u[0]);
                }
            },
            None => {},
        }
    }
    assert(t != seq![121u8, 101u8, 115u8]) by {
        assert(t[0] != seq![121u8, 101u8, 115u8][0]);
    }
    assert(t != seq![110u8, 111u8]) by {
        assert(t[0] != seq![110u8, 111u8][0]);
    }
}

/// A written scalar reads back as one token denoting the same scalar.
#[verifier::rlimit(40)]
#[verifier::spinoff_prover]
proof fn lemma_scalar_token(b: Seq<u8>, base: int, file: Seq<u8>, pos: int, line: int, s: ScalarView, x: Seq<u8>)
    requires
        spec_scalar_text(s) == Ok::<Seq<u8>, ErrorView>(x),
        holds_at(b, pos, x),
        0 <= pos,
        pos + x.len() <= b.len(),
        pos + x.len() < b.len() ==> (b[pos + x.len()] == 32u8 || b[pos + x.len()] == 10u8),
    ensures
        lex_step(b, base, file, pos, line) matches LexStep::Tok(t, p, _) && p == pos + x.len()
            && (t.kind == Kind::Word || t.kind == Kind::Math) && token_scalar(t) == canon_scalar(s),
{
    match s {
        ScalarView::Str { value, quoted } => {
            if quoted || !bare_string(value) {
                assert(quotable(value));
                assert(x == seq![34u8] + value + seq![34u8]);
                lemma_holds_index(b, pos, x, 0);
                lemma_holds_index(b, pos, x, x.len() - 1);
                assert(holds_at(b, pos + 1, value)) by {
                    assert forall|k: int| 0 <= k < value.len() implies b.subrange(pos + 1, pos + 1 + value.len())[k] == value[k] by {
                        lemma_holds_index(b, pos, x, k + 1);
                        assert(x[k + 1] == value[k]);
                    }
                    assert(b.subrange(pos + 1, pos + 1 + value.len()) =~= value);
                }
                lemma_quote_scan(b, pos, value, 0);
                assert(b.subrange(pos + 1, pos + 1 + value.len()) == value);
            } else {
                lemma_bare_word(b, base, file, pos, line, value);
            }
        },
        ScalarView::Bool { value } => {
            if value {
                assert(bare_token(x)) by {
                    assert forall|i: int| 0 <= i < x.len() implies !term_byte(#[trigger] x[i]) by {}
                }
            } else {
                assert(bare_token(x)) by {
                    assert forall|i: int| 0 <= i < x.len() implies !term_byte(#[trigger] x[i]) by {}
                }
            }
            lemma_bare_word(b, base, file, pos, line, x);
        },
        ScalarView::Num { lexeme } => {
            lemma_numeral_bare(lexeme);
            lemma_bare_word(b, base, file, pos, line, x);
        },
        ScalarView::Var { name } => {
            lemma_var_classify(name);
            lemma_bare_word(b, base, file, pos, line, x);
        },
        ScalarView::Math { source } => {
            let body = math_body(x).unwrap();
            let open = x.len() - body.len();
            lemma_holds_index(b, pos, x, 0);
            lemma_holds_index(b, pos, x, 1);
            if open == 3 {
                lemma_holds_index(b, pos, x, 2);
            }
            assert(math_open_at(b, pos));
            lemma_find_from(b, 93u8, pos);
            lemma_holds_index(b, pos, x, x.len() - 1);
            assert(find_from(b, 93u8, pos) == Some(pos + x.len() - 1)) by {
                assert forall|j: int| pos <= j < pos + x.len() - 1 implies b[j] != 93u8 by {
                    lemma_holds_index(b, pos, x, j - pos);
                    if j - pos >= open {
                        assert(body[j - pos - open] == x[j - pos]);
                    }
                }
                lemma_find_exact(b, 93u8, pos, pos + x.len() - 1);
            }
            assert(b.subrange(pos, pos + x.len()) == x);
        },
    }
}

proof fn lemma_find_exact(b: Seq<u8>, c: u8, i: int, k: int)
    requires
        0 <= i <= k < b.len(),
        b[k] == c,
        forall|j: int| i <= j < k ==> b[j] != c,
    ensures
        find_from(b, c, i) == Some(k),
    decreases k - i,
{
    if i < k {
        lemma_find_exact(b, c, i + 1, k);
    }
}

/// A quoted string whose content keeps its quotes reads as one quoted word.
proof fn lemma_quoted_word(b: Seq<u8>, base: int, file: Seq<u8>, pos: int, line: int, t: Seq<u8>)
    requires
        quotable(t),
        holds_at(b, pos, seq![34u8] + t + seq![34u8]),
    ensures
        lex_step(b, base, file, pos, line) == simple_tok(b, base, pos, line, pos + t.len() + 2, Kind::Word, t, true),
{
    let x = seq![34u8] + t + seq![34u8];
    lemma_holds_index(b, pos, x, 0);
    lemma_holds_index(b, pos, x, x.len() - 1);
    assert(holds_at(b, pos + 1, t)) by {
        assert forall|k: int| 0 <= k < t.len() implies b.subrange(pos + 1, pos + 1 + t.len())[k] == t[k] by {
            lemma_holds_index(b, pos, x, k + 1);
            assert(x[k + 1] == t[k]);
        }
        assert(b.subrange(pos + 1, pos + 1 + t.len()) =~= t);
    }
    if pos + 1 + t.len() < b.len() {
        lemma_quote_scan(b, pos, t, 0);
    }
}

proof fn lemma_prepend_all_join(a: Seq<TokenView>, c: Seq<TokenView>, r: Result<Seq<TokenView>, ErrorView>)
    ensures
        prepend_all(a, prepend_all(c, r)) == prepend_all(a + c, r),
{
    if let Ok(rest) = r {
        assert(a + (c + rest) =~= (a + c) + rest);
    }
}

proof fn lemma_prepend_one(t: TokenView, r: Result<Seq<TokenView>, ErrorView>)
    ensures
        prepend(t, r) == prepend_all(seq![t], r),
{
}

/// An operator's spelling followed by a space reads as one operator token.
proof fn lemma_op_token(b: Seq<u8>, base: int, file: Seq<u8>, pos: int, line: int, op: Operator)
    requires
        holds_at(b, pos, op_spelling(op)),
        pos + op_spelling(op).len() < b.len(),
        b[pos + op_spelling(op).len()] == 32u8,
    ensures
        lex_step(b, base, file, pos, line) matches LexStep::Tok(t, p, l) && p == pos + op_spelling(op).len()
            && l == line && t.kind == Kind::Op && t.text == op_spelling(op),
{
    let x = op_spelling(op);
    lemma_holds_index(b, pos, x, 0);
    if x.len() == 2 {
        lemma_holds_index(b, pos, x, 1);
    }
    assert(b.subrange(pos, pos + x.len()) == x);
    assert forall|j: int| pos <= j < pos + x.len() implies b[j] != 10u8 by {
        lemma_holds_index(b, pos, x, j - pos);
    }
    crate::text::lemma_no_newlines(b, pos, pos + x.len());
}

proof fn lemma_skip_space(b: Seq<u8>, base: int, file: Seq<u8>, p: int, l: int)
    requires
        0 <= p < b.len(),
        b[p] == 32u8,
    ensures
        lex_from(b, base, file, p, l) == lex_from(b, base, file, p + 1, l),
{
    lemma_lex_step(b, base, file, p, l);
}

proof fn lemma_skip_newline(b: Seq<u8>, base: int, file: Seq<u8>, p: int, l: int)
    requires
        0 <= p < b.len(),
        b[p] == 10u8,
    ensures
        lex_from(b, base, file, p, l) == lex_from(b, base, file, p + 1, l + 1),
{
    lemma_lex_step(b, base, file, p, l);
}

proof fn lemma_tok_step(b: Seq<u8>, base: int, file: Seq<u8>, p: int, l: int)
    requires
        0 <= p < b.len(),
        lex_step(b, base, file, p, l) is Tok,
    ensures
        lex_step(b, base, file, p, l) matches LexStep::Tok(t, q, l2) && lex_from(b, base, file, p, l) == prepend(t, lex_from(b, base, file, q, l2)),
{
    lemma_lex_step(b, base, file, p, l);
}

proof fn lemma_sub_at(b: Seq<u8>, pos: int, x: Seq<u8>, off: int, y: Seq<u8>)
    requires
        holds_at(b, pos, x),
        0 <= off,
        off + y.len() <= x.len(),
        x.subrange(off, off + y.len()) == y,
    ensures
        holds_at(b, pos + off, y),
{
    assert forall|j: int| 0 <= j < y.len() implies b.subrange(pos + off, pos + off + y.len())[j] == y[j] by {
        lemma_holds_index(b, pos, x, off + j);
        assert(x.subrange(off, off + y.len())[j] == x[off + j]);
    }
    assert(b.subrange(pos + off, pos + off + y.len()) =~= y);
}

/// Lines stay within what the text before them can hold.
pub open spec fn line_ok(b: Seq<u8>, base: int, pos: int, line: int) -> bool {
    0 <= base && 1 <= line <= base + pos + 1 && base + b.len() < usize::MAX
}

proof fn lemma_tok_lines(b: Seq<u8>, base: int, file: Seq<u8>, pos: int, line: int)
    requires
        0 <= pos < b.len(),
        line_ok(b, base, pos, line),
        lex_step(b, base, file, pos, line) matches LexStep::Tok(t, q, l) && t.span.line == line as usize
            && l == line + crate::text::newlines(b, pos, q) && pos < q <= b.len(),
    ensures
        lex_step(b, base, file, pos, line) matches LexStep::Tok(t, q, l) && t.span.line == line && line <= l
            && line_ok(b, base, q, l),
{
    if let LexStep::Tok(t, q, l) = lex_step(b, base, file, pos, line) {
        crate::text::lemma_newlines_bound(b, pos, q);
    }
}

/// A written scalar item reads as one token.
proof fn lemma_scalar_item_tokens(b: Seq<u8>, base: int, file: Seq<u8>, pos: int, line: int, s: ScalarView, x: Seq<u8>) -> (r: (Seq<TokenView>, int))
    requires
        spec_scalar_text(s) == Ok::<Seq<u8>, ErrorView>(x),
        holds_at(b, pos, x),
        pos + x.len() < b.len(),
        b[pos + x.len()] == 10u8 || b[pos + x.len()] == 32u8,
        line_ok(b, base, pos, line),
    ensures
        lex_from(b, base, file, pos, line) == prepend_all(r.0, lex_from(b, base, file, pos + x.len(), r.1)),
        r.0.len() == 1,
        (r.0[0].kind == Kind::Word || r.0[0].kind == Kind::Math) && token_scalar(r.0[0]) == canon_scalar(s),
        r.0[0].span.line == line,
        line <= r.1,
        line_ok(b, base, pos + x.len(), r.1),
{
    lemma_scalar_token(b, base, file, pos, line, s, x);
    lemma_tok_step(b, base, file, pos, line);
    lemma_tok_lines(b, base, file, pos, line);
    let (tok, l) = match lex_step(b, base, file, pos, line) {
        LexStep::Tok(tok, _, l) => (tok, l),
        _ => arbitrary(),
    };
    lemma_prepend_one(tok, lex_from(b, base, file, pos + x.len(), l));
    (seq![tok], l)
}

/// The key, operator and spaces that start a written entry.
pub open spec fn lead_text(key: Seq<u8>, op: Operator) -> Seq<u8> {
    (if bare_key(key) { key } else { seq![34u8] + key + seq![34u8] }) + seq![32u8] + op_spelling(op) + seq![32u8]
}

/// The text of an entry with a scalar value.
pub open spec fn entry_text(key: Seq<u8>, op: Operator, v: Seq<u8>) -> Seq<u8> {
    lead_text(key, op) + v
}

/// A written key and operator read as a key word and an operator token.
#[verifier::rlimit(40)]
proof fn lemma_lead_tokens(b: Seq<u8>, base: int, file: Seq<u8>, pos: int, line: int, key: Seq<u8>, op: Operator) -> (r: (Seq<TokenView>, int))
    requires
        bare_key(key) || quotable(key),
        holds_at(b, pos, lead_text(key, op)),
        pos + lead_text(key, op).len() < b.len(),
        line_ok(b, base, pos, line),
    ensures
        lex_from(b, base, file, pos, line) == prepend_all(r.0, lex_from(b, base, file, pos + lead_text(key, op).len(), r.1)),
        r.0.len() == 2,
        r.0[0].kind == Kind::Word && r.0[0].text == key,
        r.0[1].kind == Kind::Op && op_of(r.0[1].text) == Some(op),
        line <= r.1,
        line_ok(b, base, pos + lead_text(key, op).len(), r.1),
        forall|j: int| 0 <= j < 2 ==> line <= (#[trigger] r.0[j]).span.line <= r.1,
{
    let x = lead_text(key, op);
    let k = if bare_key(key) { key } else { seq![34u8] + key + seq![34u8] };
    let o = op_spelling(op);
    let kl = k.len() as int;
    let ol = o.len() as int;
    let p1 = pos + kl;
    let p2 = p1 + 1;
    let p3 = p2 + ol;
    assert(x.subrange(0, kl) =~= k);
    lemma_sub_at(b, pos, x, 0, k);
    assert(x.subrange(kl, kl + 1) =~= seq![32u8]);
    lemma_sub_at(b, pos, x, kl, seq![32u8]);
    lemma_holds_index(b, p1, seq![32u8], 0);
    assert(x.subrange(kl + 1, kl + 1 + ol) =~= o);
    lemma_sub_at(b, pos, x, kl + 1, o);
    assert(x.subrange(kl + 1 + ol, kl + 2 + ol) =~= seq![32u8]);
    lemma_sub_at(b, pos, x, kl + 1 + ol, seq![32u8]);
    lemma_holds_index(b, p3, seq![32u8], 0);
    if bare_key(key) {
        lemma_bare_word(b, base, file, pos, line, key);
    } else {
        lemma_quoted_word(b, base, file, pos, line, key);
    }
    lemma_tok_step(b, base, file, pos, line);
    lemma_tok_lines(b, base, file, pos, line);
    let (kt, l1) = match lex_step(b, base, file, pos, line) {
        LexStep::Tok(t, _, l) => (t, l),
        _ => arbitrary(),
    };
    lemma_skip_space(b, base, file, p1, l1);
    lemma_op_token(b, base, file, p2, l1, op);
    lemma_tok_step(b, base, file, p2, l1);
    let ot = match lex_step(b, base, file, p2, l1) {
        LexStep::Tok(t, _, _) => t,
        _ => arbitrary(),
    };
    lemma_skip_space(b, base, file, p3, l1);
    law_operator_spelling(op, o);
    let end = lex_from(b, base, file, p3 + 1, l1);
    lemma_prepend_one(ot, end);
    lemma_prepend_one(kt, lex_from(b, base, file, p1, l1));
    lemma_prepend_all_join(seq![kt], seq![ot], end);
    assert(seq![kt] + seq![ot] =~= seq![kt, ot]);
    (seq![kt, ot], l1)
}

/// A written entry with a scalar value reads as key, operator, and value tokens.
proof fn lemma_entry_tokens(b: Seq<u8>, base: int, file: Seq<u8>, pos: int, line: int, key: Seq<u8>, op: Operator, s: ScalarView, v: Seq<u8>) -> (r: (Seq<TokenView>, int))
    requires
        bare_key(key) || quotable(key),
        spec_scalar_text(s) == Ok::<Seq<u8>, ErrorView>(v),
        holds_at(b, pos, entry_text(key, op, v)),
        pos + entry_text(key, op, v).len() < b.len(),
        b[pos + entry_text(key, op, v).len()] == 10u8,
        line_ok(b, base, pos, line),
    ensures
        lex_from(b, base, file, pos, line) == prepend_all(r.0, lex_from(b, base, file, pos + entry_text(key, op, v).len(), r.1)),
        r.0.len() == 3,
        r.0[0].kind == Kind::Word && r.0[0].text == key,
        r.0[1].kind == Kind::Op && op_of(r.0[1].text) == Some(op),
        (r.0[2].kind == Kind::Word || r.0[2].kind == Kind::Math) && token_scalar(r.0[2]) == canon_scalar(s),
        line <= r.1,
        line_ok(b, base, pos + entry_text(key, op, v).len(), r.1),
        forall|j: int| 0 <= j < 3 ==> line <= (#[trigger] r.0[j]).span.line <= r.1,
{
    let x = entry_text(key, op, v);
    let lead = lead_text(key, op);
    let n = lead.len() as int;
    assert(x.subrange(0, n) =~= lead);
    lemma_sub_at(b, pos, x, 0, lead);
    assert(x.subrange(n, x.len() as int) =~= v);
    lemma_sub_at(b, pos, x, n, v);
    let (lt, l1) = lemma_lead_tokens(b, base, file, pos, line, key, op);
    let (vt, l2) = lemma_scalar_item_tokens(b, base, file, pos + n, l1, s, v);
    lemma_prepend_all_join(lt, vt, lex_from(b, base, file, pos + x.len(), l2));
    let ts = lt + vt;
    assert(ts[0] == lt[0] && ts[1] == lt[1] && ts[2] == vt[0]);
    (ts, l2)
}

// ---------------------------------------------------------------- documents with bodies

/// An item whose anonymous bodies carry no header, and whose conditional regions hold structured
/// items rather than verbatim text.
pub open spec fn tree_item(i: ItemView) -> bool
    decreases i,
{
    match i.kind {
        ItemKindView::Scalar(_) => true,
        ItemKindView::Entry(e) => match e.value {
            ValueView::Scalar(_) => true,
            ValueView::Container(c) => tree_items(c.items),
        },
        ItemKindView::Container(c) => c.header is None && tree_items(c.items),
        ItemKindView::Param { items, .. } => tree_items(items),
        ItemKindView::ParamText { name, negated, text } => region_lexes(name, negated, text),
    }
}

pub open spec fn tree_items(s: Seq<ItemView>) -> bool
    decreases s,
{
    if s.len() == 0 {
        true
    } else {
        tree_item(s[0]) && tree_items(s.subrange(1, s.len() as int))
    }
}

/// The number of tokens an item reads as.
pub open spec fn tree_len(i: ItemView) -> nat
    decreases i,
{
    match i.kind {
        ItemKindView::Scalar(_) => 1,
        ItemKindView::Entry(e) => match e.value {
            ValueView::Scalar(_) => 3,
            ValueView::Container(c) => 4 + (if c.header is Some { 1nat } else { 0nat }) + trees_len(c.items),
        },
        ItemKindView::Container(c) => 2 + trees_len(c.items),
        ItemKindView::Param { .. } => 1,
        ItemKindView::ParamText { .. } => 1,
    }
}

pub open spec fn trees_len(s: Seq<ItemView>) -> nat
    decreases s,
{
    if s.len() == 0 {
        0
    } else {
        tree_len(s[0]) + trees_len(s.subrange(1, s.len() as int))
    }
}

/// What follows an item's tokens cannot join them: no operator, and an opening brace only on a later line.
pub open spec fn follow_ok(a: Seq<TokenView>, b: Seq<TokenView>) -> bool {
    b.len() > 0 ==> (b[0].kind != Kind::Op && (b[0].kind == Kind::Open ==> forall|j: int|
        0 <= j < a.len() ==> (#[trigger] a[j]).span.line < b[0].span.line))
}

/// The tokens an item reads as.
pub open spec fn item_tree_shape(i: ItemView, ts: Seq<TokenView>, file: Seq<u8>) -> bool
    decreases i,
{
    match i.kind {
        ItemKindView::Scalar(s) => ts.len() == 1 && (ts[0].kind == Kind::Word || ts[0].kind == Kind::Math)
            && token_scalar(ts[0]) == canon_scalar(s),
        ItemKindView::Entry(e) => match e.value {
            ValueView::Scalar(s) => {
                &&& ts.len() == 3
                &&& ts[0].kind == Kind::Word && ts[0].text == e.key
                &&& ts[1].kind == Kind::Op && op_of(ts[1].text) == Some(e.op)
                &&& ts[2].kind == Kind::Word || ts[2].kind == Kind::Math
                &&& token_scalar(ts[2]) == canon_scalar(s)
            },
            ValueView::Container(c) => {
                let h = if c.header is Some { 1int } else { 0int };
                &&& ts.len() == 4 + h + trees_len(c.items)
                &&& ts[0].kind == Kind::Word && ts[0].text == e.key
                &&& ts[1].kind == Kind::Op && op_of(ts[1].text) == Some(e.op)
                &&& c.header matches Some(hh) ==> (ts[2].kind == Kind::Word && !ts[2].quoted && ts[2].text == hh
                    && ts[2].span.line == ts[3].span.line)
                &&& ts[2 + h].kind == Kind::Open
                &&& ts.last().kind == Kind::Close
                &&& items_tree_shape(c.items, ts.subrange(3 + h, ts.len() - 1), file)
            },
        },
        ItemKindView::Container(c) => {
            &&& ts.len() == 2 + trees_len(c.items)
            &&& ts[0].kind == Kind::Open
            &&& ts.last().kind == Kind::Close
            &&& items_tree_shape(c.items, ts.subrange(1, ts.len() - 1), file)
        },
        ItemKindView::Param { name, negated, items } => {
            &&& ts.len() == 1
            &&& ts[0].kind == Kind::Region
            &&& strip_bang(ts[0].text) == name
            &&& is_negated(ts[0]) == negated
            &&& lex(ts[0].body, ts[0].body_start as int, file, ts[0].span.line as int) matches Ok(inner)
                && items_tree_shape(items, inner, file)
        },
        ItemKindView::ParamText { name, negated, text } => {
            &&& ts.len() == 1
            &&& ts[0].kind == Kind::Region && !ts[0].quoted && ts[0].body == text
            &&& strip_bang(ts[0].text) == name && is_negated(ts[0]) == negated
            &&& tok_fit(ts[0])
        },
    }
}

pub open spec fn items_tree_shape(items: Seq<ItemView>, ts: Seq<TokenView>, file: Seq<u8>) -> bool
    decreases items,
{
    if items.len() == 0 {
        ts.len() == 0
    } else {
        let n = tree_len(items[0]);
        &&& ts.len() >= n
        &&& item_tree_shape(items[0], ts.take(n as int), file)
        &&& follow_ok(ts.take(n as int), ts.skip(n as int))
        &&& items_tree_shape(items.subrange(1, items.len() as int), ts.skip(n as int), file)
    }
}

/// Every token of `ts` lies on a line from `lo` to `hi`.
pub open spec fn lines_within(ts: Seq<TokenView>, lo: int, hi: int) -> bool {
    forall|j: int| 0 <= j < ts.len() ==> lo <= (#[trigger] ts[j]).span.line <= hi
}

proof fn lemma_lines_join(a: Seq<TokenView>, c: Seq<TokenView>, lo: int, mid: int, hi: int)
    requires
        lines_within(a, lo, mid),
        lines_within(c, mid, hi),
        lo <= mid <= hi,
    ensures
        lines_within(a + c, lo, hi),
{
    assert forall|j: int| 0 <= j < (a + c).len() implies lo <= (#[trigger] (a + c)[j]).span.line <= hi by {
        if j < a.len() {
            assert((a + c)[j] == a[j]);
        } else {
            assert((a + c)[j] == c[j - a.len()]);
        }
    }
}

proof fn lemma_skip_tabs(b: Seq<u8>, base: int, file: Seq<u8>, p: int, l: int, d: nat)
    requires
        holds_at(b, p, tabs(d)),
        p + d <= b.len(),
    ensures
        lex_from(b, base, file, p, l) == lex_from(b, base, file, p + d, l),
    decreases d,
{
    if d > 0 {
        lemma_holds_index(b, p, tabs(d), 0);
        lemma_lex_step(b, base, file, p, l);
        assert(tabs(d).subrange(1, d as int) =~= tabs((d - 1) as nat));
        lemma_sub_at(b, p, tabs(d), 1, tabs((d - 1) as nat));
        lemma_skip_tabs(b, base, file, p + 1, l, (d - 1) as nat);
    }
}

proof fn lemma_brace(b: Seq<u8>, base: int, file: Seq<u8>, pos: int, line: int)
    requires
        0 <= pos < b.len(),
        b[pos] == 123u8 || b[pos] == 125u8,
        line_ok(b, base, pos, line),
    ensures
        lex_step(b, base, file, pos, line) matches LexStep::Tok(t, q, l) && q == pos + 1 && l == line
            && t.span.line == line && t.kind == (if b[pos] == 123u8 { Kind::Open } else { Kind::Close })
            && lex_from(b, base, file, pos, line) == prepend(t, lex_from(b, base, file, pos + 1, line)),
{
    lemma_lex_step(b, base, file, pos, line);
    crate::text::lemma_no_newlines(b, pos, pos + 1);
}

proof fn lemma_tree_first(items: Seq<ItemView>, ts: Seq<TokenView>, file: Seq<u8>)
    requires
        items_tree_shape(items, ts, file),
        items.len() > 0,
        tree_items(items),
    ensures
        ts.len() > 0,
        ts[0].kind != Kind::Op,
        all_scalars(items) ==> (ts[0].kind == Kind::Word || ts[0].kind == Kind::Math),
{
    let n = tree_len(items[0]);
    assert(tree_item(items[0]));
    let t = ts.take(n as int);
    assert(item_tree_shape(items[0], t, file));
    assert(n >= 1);
    assert(t[0] == ts[0]);
    assert(t[0].kind != Kind::Op);
    if all_scalars(items) {
        assert(items[0].kind is Scalar);
    }
}

/// A written list of scalars separated by single spaces reads as their tokens.
#[verifier::rlimit(60)]
#[verifier::spinoff_prover]
proof fn lemma_scalar_list_tokens(b: Seq<u8>, base: int, file: Seq<u8>, pos: int, line: int, items: Seq<ItemView>, x: Seq<u8>) -> (r: (Seq<TokenView>, int))
    requires
        all_scalars(items),
        tree_items(items),
        scalar_list(items) == Ok::<Seq<u8>, ErrorView>(x),
        holds_at(b, pos, x),
        pos + x.len() < b.len(),
        b[pos + x.len()] == 32u8,
        line_ok(b, base, pos, line),
    ensures
        lex_from(b, base, file, pos, line) == prepend_all(r.0, lex_from(b, base, file, pos + x.len(), r.1)),
        items_tree_shape(items, r.0, file),
        r.0.len() == trees_len(items),
        lines_within(r.0, line, r.1),
        line <= r.1,
        line_ok(b, base, pos + x.len(), r.1),
    decreases items.len(),
{
    if items.len() == 0 {
        assert(x.len() == 0);
        if let Ok(rest) = lex_from(b, base, file, pos, line) {
            assert(Seq::<TokenView>::empty() + rest =~= rest);
        }
        (Seq::empty(), line)
    } else {
        let rest = items.subrange(1, items.len() as int);
        assert(rest =~= items.drop_first());
        assert(items[0].kind is Scalar);
        let s0 = items[0].kind->Scalar_0;
        let x0 = inline_text(items[0])->Ok_0;
        assert(tree_item(items[0]));
        assert forall|k: int| 0 <= k < rest.len() implies (#[trigger] rest[k]).kind is Scalar by {
            assert(rest[k] == items[k + 1]);
        }
        if items.len() == 1 {
            assert(x == x0);
            let (t0, l0) = lemma_scalar_item_tokens(b, base, file, pos, line, s0, x0);
            assert(t0.take(1) =~= t0);
            assert(t0.skip(1) =~= Seq::<TokenView>::empty());
            assert(rest =~= Seq::<ItemView>::empty());
            assert(items_tree_shape(rest, t0.skip(1), file));
            assert(tree_len(items[0]) == 1);
            assert(trees_len(rest) == 0);
            assert(item_tree_shape(items[0], t0.take(1), file));
            assert(follow_ok(t0.take(1), t0.skip(1)));
            (t0, l0)
        } else {
            let xr = scalar_list(rest)->Ok_0;
            assert(x =~= x0 + seq![32u8] + xr);
            let n0 = x0.len() as int;
            assert(x.subrange(0, n0) =~= x0);
            lemma_sub_at(b, pos, x, 0, x0);
            lemma_holds_index(b, pos, x, n0);
            assert(x.subrange(n0 + 1, x.len() as int) =~= xr);
            lemma_sub_at(b, pos, x, n0 + 1, xr);
            let (t0, l0) = lemma_scalar_item_tokens(b, base, file, pos, line, s0, x0);
            lemma_skip_space(b, base, file, pos + n0, l0);
            let (tr, lr) = lemma_scalar_list_tokens(b, base, file, pos + n0 + 1, l0, rest, xr);
            lemma_tree_first(rest, tr, file);
            lemma_prepend_all_join(t0, tr, lex_from(b, base, file, pos + x.len(), lr));
            let ts = t0 + tr;
            assert(ts.take(1) =~= t0);
            assert(ts.skip(1) =~= tr);
            lemma_lines_join(t0, tr, line, l0, lr);
            assert(tree_len(items[0]) == 1);
            assert(item_tree_shape(items[0], ts.take(1), file));
            assert(follow_ok(ts.take(1), ts.skip(1)));
            assert(items_tree_shape(rest, ts.skip(1), file));
            (ts, lr)
        }
    }
}

proof fn lemma_no_newline_word(b: Seq<u8>, pos: int, x: Seq<u8>)
    requires
        holds_at(b, pos, x),
        bare_token(x),
    ensures
        crate::text::newlines(b, pos, pos + x.len()) == 0,
{
    assert forall|j: int| pos <= j < pos + x.len() implies b[j] != 10u8 by {
        lemma_holds_index(b, pos, x, j - pos);
        assert(!term_byte(x[j - pos]));
    }
    crate::text::lemma_no_newlines(b, pos, pos + x.len());
}

/// An empty body `{}` reads as two braces.
proof fn lemma_empty_block_tokens(b: Seq<u8>, base: int, file: Seq<u8>, pos: int, line: int, items: Seq<ItemView>, d: nat, y: Seq<u8>) -> (r: (Seq<TokenView>, int))
    requires
        tree_items(items),
        d < MAX_NESTING_DEPTH,
        block_text(items, d) == Ok::<Seq<u8>, ErrorView>(y),
        holds_at(b, pos, y),
        pos + y.len() < b.len(),
        b[pos + y.len()] == 10u8,
        line_ok(b, base, pos, line),
        items.len() == 0,
    ensures
        lex_from(b, base, file, pos, line) == prepend_all(r.0, lex_from(b, base, file, pos + y.len(), r.1)),
        r.0.len() == 2 + trees_len(items),
        r.0[0].kind == Kind::Open && r.0[0].span.line == line,
        r.0.last().kind == Kind::Close,
        items_tree_shape(items, r.0.subrange(1, r.0.len() - 1), file),
        lines_within(r.0, line, r.1),
        line <= r.1,
        line_ok(b, base, pos + y.len(), r.1),
{
    lemma_holds_index(b, pos, y, 0);
    lemma_brace(b, base, file, pos, line);
    let o = match lex_step(b, base, file, pos, line) {
        LexStep::Tok(t, _, _) => t,
        _ => arbitrary(),
    };
    assert(y == seq![123u8, 125u8]);
    lemma_holds_index(b, pos, y, 1);
    lemma_brace(b, base, file, pos + 1, line);
    let c = match lex_step(b, base, file, pos + 1, line) {
        LexStep::Tok(t, _, _) => t,
        _ => arbitrary(),
    };
    let end = lex_from(b, base, file, pos + 2, line);
    lemma_prepend_one(c, end);
    lemma_prepend_one(o, prepend(c, end));
    lemma_prepend_all_join(seq![o], seq![c], end);
    let ts = seq![o, c];
    assert(seq![o] + seq![c] =~= ts);
    assert(ts.subrange(1, 1) =~= Seq::<TokenView>::empty());
    assert(trees_len(items) == 0);
    (ts, line)
}

/// A one-line body of scalars reads as braces around the scalars' tokens.
#[verifier::rlimit(60)]
proof fn lemma_scalar_block_tokens(b: Seq<u8>, base: int, file: Seq<u8>, pos: int, line: int, items: Seq<ItemView>, d: nat, y: Seq<u8>) -> (r: (Seq<TokenView>, int))
    requires
        tree_items(items),
        d < MAX_NESTING_DEPTH,
        block_text(items, d) == Ok::<Seq<u8>, ErrorView>(y),
        holds_at(b, pos, y),
        pos + y.len() < b.len(),
        b[pos + y.len()] == 10u8,
        line_ok(b, base, pos, line),
        items.len() > 0,
        all_scalars(items),
    ensures
        lex_from(b, base, file, pos, line) == prepend_all(r.0, lex_from(b, base, file, pos + y.len(), r.1)),
        r.0.len() == 2 + trees_len(items),
        r.0[0].kind == Kind::Open && r.0[0].span.line == line,
        r.0.last().kind == Kind::Close,
        items_tree_shape(items, r.0.subrange(1, r.0.len() - 1), file),
        lines_within(r.0, line, r.1),
        line <= r.1,
        line_ok(b, base, pos + y.len(), r.1),
{
    lemma_holds_index(b, pos, y, 0);
    lemma_brace(b, base, file, pos, line);
    let o = match lex_step(b, base, file, pos, line) {
        LexStep::Tok(t, _, _) => t,
        _ => arbitrary(),
    };
    let yl = y.len() as int;
    let sl = scalar_list(items)->Ok_0;
    assert(y =~= seq![123u8, 32u8] + sl + seq![32u8, 125u8]);
    let sll = sl.len() as int;
    lemma_holds_index(b, pos, y, 1);
    assert(y.subrange(2, 2 + sll) =~= sl);
    lemma_sub_at(b, pos, y, 2, sl);
    lemma_holds_index(b, pos, y, 2 + sll);
    lemma_holds_index(b, pos, y, 3 + sll);
    lemma_skip_space(b, base, file, pos + 1, line);
    let (st, l1) = lemma_scalar_list_tokens(b, base, file, pos + 2, line, items, sl);
    lemma_skip_space(b, base, file, pos + 2 + sll, l1);
    lemma_brace(b, base, file, pos + 3 + sll, l1);
    let c = match lex_step(b, base, file, pos + 3 + sll, l1) {
        LexStep::Tok(t, _, _) => t,
        _ => arbitrary(),
    };
    let end = lex_from(b, base, file, pos + yl, l1);
    lemma_prepend_one(c, end);
    lemma_prepend_all_join(st, seq![c], end);
    lemma_prepend_one(o, prepend_all(st + seq![c], end));
    lemma_prepend_all_join(seq![o], st + seq![c], end);
    let ts = seq![o] + st + seq![c];
    assert(seq![o] + (st + seq![c]) =~= ts);
    assert(ts.subrange(1, ts.len() - 1) =~= st);
    lemma_lines_join(seq![o], st, line, line, l1);
    lemma_lines_join(seq![o] + st, seq![c], line, l1, l1);
    (ts, l1)
}

/// A multi-line body reads as braces around its items' tokens.
#[verifier::rlimit(60)]
proof fn lemma_lines_block_tokens(b: Seq<u8>, base: int, file: Seq<u8>, pos: int, line: int, items: Seq<ItemView>, d: nat, wi: Seq<u8>, y: Seq<u8>) -> (r: (Seq<TokenView>, int))
    requires
        tree_items(items),
        w_items(items, d + 1, seq![10u8]) == Ok::<Seq<u8>, ErrorView>(wi),
        y == seq![123u8, 10u8] + wi + (seq![10u8] + tabs(d) + seq![125u8]),
        holds_at(b, pos, y),
        pos + y.len() < b.len(),
        b[pos + y.len()] == 10u8,
        line_ok(b, base, pos, line),
    ensures
        lex_from(b, base, file, pos, line) == prepend_all(r.0, lex_from(b, base, file, pos + y.len(), r.1)),
        r.0.len() == 2 + trees_len(items),
        r.0[0].kind == Kind::Open && r.0[0].span.line == line,
        r.0.last().kind == Kind::Close,
        items_tree_shape(items, r.0.subrange(1, r.0.len() - 1), file),
        lines_within(r.0, line, r.1),
        line <= r.1,
        line_ok(b, base, pos + y.len(), r.1),
    decreases items_size(items), 1nat,
{
    lemma_holds_index(b, pos, y, 0);
    lemma_brace(b, base, file, pos, line);
    let o = match lex_step(b, base, file, pos, line) {
        LexStep::Tok(t, _, _) => t,
        _ => arbitrary(),
    };
    let yl = y.len() as int;
    let wl = wi.len() as int;
    lemma_holds_index(b, pos, y, 1);
    assert(y.subrange(2, 2 + wl) =~= wi);
    lemma_sub_at(b, pos, y, 2, wi);
    lemma_holds_index(b, pos, y, 2 + wl);
    assert(y.subrange(3 + wl, 3 + wl + d) =~= tabs(d));
    lemma_sub_at(b, pos, y, 3 + wl, tabs(d));
    lemma_holds_index(b, pos, y, 3 + wl + d);
    lemma_skip_newline(b, base, file, pos + 1, line);
    let (it, l1) = lemma_tree_items_tokens(b, base, file, pos + 2, line + 1, items, d + 1, seq![10u8], wi);
    lemma_skip_newline(b, base, file, pos + 2 + wl, l1);
    lemma_skip_tabs(b, base, file, pos + 3 + wl, l1 + 1, d);
    lemma_brace(b, base, file, pos + 3 + wl + d, l1 + 1);
    let c = match lex_step(b, base, file, pos + 3 + wl + d, l1 + 1) {
        LexStep::Tok(t, _, _) => t,
        _ => arbitrary(),
    };
    let end = lex_from(b, base, file, pos + yl, l1 + 1);
    lemma_prepend_one(c, end);
    lemma_prepend_all_join(it, seq![c], end);
    lemma_prepend_one(o, prepend_all(it + seq![c], end));
    lemma_prepend_all_join(seq![o], it + seq![c], end);
    let ts = seq![o] + it + seq![c];
    assert(seq![o] + (it + seq![c]) =~= ts);
    assert(ts.subrange(1, ts.len() - 1) =~= it);
    lemma_lines_join(seq![o], it, line, line + 1, l1);
    lemma_lines_join(seq![o] + it, seq![c], line, l1 + 1, l1 + 1);
    (ts, l1 + 1)
}

/// The braces and items of a written body read as an opening brace, the items' tokens, and a closing brace.
proof fn lemma_block_tokens(b: Seq<u8>, base: int, file: Seq<u8>, pos: int, line: int, items: Seq<ItemView>, d: nat, y: Seq<u8>) -> (r: (Seq<TokenView>, int))
    requires
        tree_items(items),
        d < MAX_NESTING_DEPTH,
        block_text(items, d) == Ok::<Seq<u8>, ErrorView>(y),
        holds_at(b, pos, y),
        pos + y.len() < b.len(),
        b[pos + y.len()] == 10u8,
        line_ok(b, base, pos, line),
    ensures
        lex_from(b, base, file, pos, line) == prepend_all(r.0, lex_from(b, base, file, pos + y.len(), r.1)),
        r.0.len() == 2 + trees_len(items),
        r.0[0].kind == Kind::Open && r.0[0].span.line == line,
        r.0.last().kind == Kind::Close,
        items_tree_shape(items, r.0.subrange(1, r.0.len() - 1), file),
        lines_within(r.0, line, r.1),
        line <= r.1,
        line_ok(b, base, pos + y.len(), r.1),
    decreases items_size(items), 2nat,
{
    if items.len() == 0 {
        lemma_empty_block_tokens(b, base, file, pos, line, items, d, y)
    } else if all_scalars(items) {
        lemma_scalar_block_tokens(b, base, file, pos, line, items, d, y)
    } else {
        let wi = w_items(items, d + 1, seq![10u8])->Ok_0;
        assert(y =~= seq![123u8, 10u8] + wi + (seq![10u8] + tabs(d) + seq![125u8]));
        lemma_lines_block_tokens(b, base, file, pos, line, items, d, wi, y)
    }
}

/// A written body, with its header if any, reads as the header word, the braces, and the items' tokens.
#[verifier::rlimit(40)]
proof fn lemma_body_tokens(b: Seq<u8>, base: int, file: Seq<u8>, pos: int, line: int, c: ContainerView, d: nat, y: Seq<u8>) -> (r: (Seq<TokenView>, int))
    requires
        tree_items(c.items),
        w_body(c, d) == Ok::<Seq<u8>, ErrorView>(y),
        holds_at(b, pos, y),
        pos + y.len() < b.len(),
        b[pos + y.len()] == 10u8,
        line_ok(b, base, pos, line),
    ensures
        lex_from(b, base, file, pos, line) == prepend_all(r.0, lex_from(b, base, file, pos + y.len(), r.1)),
        r.0.len() == 2 + (if c.header is Some { 1int } else { 0int }) + trees_len(c.items),
        c.header matches Some(hh) ==> (r.0[0].kind == Kind::Word && !r.0[0].quoted && r.0[0].text == hh
            && r.0[0].span.line == r.0[1].span.line),
        r.0[if c.header is Some { 1int } else { 0int }].kind == Kind::Open,
        r.0.last().kind == Kind::Close,
        items_tree_shape(c.items, r.0.subrange((if c.header is Some { 1int } else { 0int }) + 1, r.0.len() - 1), file),
        lines_within(r.0, line, r.1),
        line <= r.1,
        line_ok(b, base, pos + y.len(), r.1),
    decreases items_size(c.items), 3nat,
{
    lemma_w_body(c, d);
    let ht = header_text(c.header);
    let blk = block_text(c.items, d)->Ok_0;
    assert(y == ht + blk);
    let hl = ht.len() as int;
    assert(y.subrange(hl, y.len() as int) =~= blk);
    lemma_sub_at(b, pos, y, hl, blk);
    match c.header {
        Some(hh) => {
            assert(y.subrange(0, hh.len() as int) =~= hh);
            lemma_sub_at(b, pos, y, 0, hh);
            lemma_holds_index(b, pos, y, hh.len() as int);
            lemma_bare_word(b, base, file, pos, line, hh);
            lemma_tok_step(b, base, file, pos, line);
            lemma_tok_lines(b, base, file, pos, line);
            lemma_no_newline_word(b, pos, hh);
            let w = match lex_step(b, base, file, pos, line) {
                LexStep::Tok(t, _, _) => t,
                _ => arbitrary(),
            };
            lemma_skip_space(b, base, file, pos + hh.len(), line);
            let (bt, l) = lemma_block_tokens(b, base, file, pos + hl, line, c.items, d, blk);
            lemma_prepend_one(w, prepend_all(bt, lex_from(b, base, file, pos + y.len(), l)));
            lemma_prepend_all_join(seq![w], bt, lex_from(b, base, file, pos + y.len(), l));
            let ts = seq![w] + bt;
            assert(ts[1] == bt[0]);
            assert(ts.subrange(2, ts.len() - 1) =~= bt.subrange(1, bt.len() - 1));
            lemma_lines_join(seq![w], bt, line, line, l);
            (ts, l)
        },
        None => {
            assert(blk =~= y);
            lemma_block_tokens(b, base, file, pos, line, c.items, d, blk)
        },
    }
}

/// A written item at depth `d` reads as its tokens.
#[verifier::rlimit(100)]
#[verifier::spinoff_prover]
proof fn lemma_tree_item_tokens(b: Seq<u8>, base: int, file: Seq<u8>, pos: int, line: int, i: ItemView, d: nat, x: Seq<u8>) -> (r: (Seq<TokenView>, int))
    requires
        tree_item(i),
        w_item(i, d) == Ok::<Seq<u8>, ErrorView>(x),
        holds_at(b, pos, x),
        pos + x.len() < b.len(),
        b[pos + x.len()] == 10u8,
        line_ok(b, base, pos, line),
    ensures
        lex_from(b, base, file, pos, line) == prepend_all(r.0, lex_from(b, base, file, pos + x.len(), r.1)),
        item_tree_shape(i, r.0, file),
        r.0.len() == tree_len(i),
        r.0.len() > 0,
        r.0[0].kind != Kind::Op,
        lines_within(r.0, line, r.1),
        line <= r.1,
        line_ok(b, base, pos + x.len(), r.1),
    decreases item_size(i), 4nat,
{
    let t = x.subrange(d as int, x.len() as int);
    assert(x.subrange(0, d as int) =~= tabs(d));
    lemma_sub_at(b, pos, x, 0, tabs(d));
    lemma_sub_at(b, pos, x, d as int, t);
    lemma_skip_tabs(b, base, file, pos, line, d);
    let p = pos + d;
    match i.kind {
        ItemKindView::Scalar(s) => {
            assert(t == spec_scalar_text(s)->Ok_0);
            let (ts, l) = lemma_scalar_item_tokens(b, base, file, p, line, s, t);
            assert(lines_within(ts, line, l));
            (ts, l)
        },
        ItemKindView::Entry(e) => {
            match e.value {
                ValueView::Scalar(s) => {
                    let v = spec_scalar_text(s)->Ok_0;
                    assert(t =~= entry_text(e.key, e.op, v));
                    let (ts, l) = lemma_entry_tokens(b, base, file, p, line, e.key, e.op, s, v);
                    (ts, l)
                },
                ValueView::Container(c) => {
                    let y = w_body(c, d)->Ok_0;
                    let lead = lead_text(e.key, e.op);
                    assert(t =~= lead + y);
                    let ll = lead.len() as int;
                    assert(t.subrange(0, ll) =~= lead);
                    lemma_sub_at(b, p, t, 0, lead);
                    assert(t.subrange(ll, t.len() as int) =~= y);
                    lemma_sub_at(b, p, t, ll, y);
                    let (lt, l1) = lemma_lead_tokens(b, base, file, p, line, e.key, e.op);
                    assert(items_size(c.items) < item_size(i));
                    let (bt, l2) = lemma_body_tokens(b, base, file, p + ll, l1, c, d, y);
                    lemma_prepend_all_join(lt, bt, lex_from(b, base, file, pos + x.len(), l2));
                    let ts = lt + bt;
                    let h = if c.header is Some { 1int } else { 0int };
                    assert(ts[0] == lt[0] && ts[1] == lt[1]);
                    assert(ts[2] == bt[0] && ts[3] == bt[1]);
                    assert(ts[2 + h] == bt[h]);
                    assert(ts.last() == bt.last());
                    assert(ts.subrange(3 + h, ts.len() - 1) =~= bt.subrange(h + 1, bt.len() - 1));
                    assert(lines_within(lt, line, l1));
                    lemma_lines_join(lt, bt, line, l1, l2);
                    (ts, l2)
                },
            }
        },
        ItemKindView::Container(c) => {
            let y = w_body(c, d)->Ok_0;
            assert(t == y);
            assert(items_size(c.items) < item_size(i));
            lemma_body_tokens(b, base, file, p, line, c, d, y)
        },
        ItemKindView::Param { name, negated, items } => {
            let wi = w_items(items, d + 1, seq![10u8])->Ok_0;
            assert(t =~= region_open(name, negated) + wi + region_close(items.len(), d));
            assert(items_size(items) < item_size(i));
            lemma_region_tokens(b, base, file, p, line, name, negated, items, d, wi, t)
        },
        ItemKindView::ParamText { name, negated, text } => {
            assert(t == region_source(name, negated, text));
            lemma_text_tokens(b, base, file, p, line, name, negated, text)
        },
    }
}

// ---------------------------------------------------------------- verbatim regions

proof fn lemma_line_end_local(b: Seq<u8>, q: int, r: Seq<u8>, i: int)
    requires
        holds_at(b, q, r),
        0 <= i,
        line_end(r, i) < r.len(),
    ensures
        line_end(b, q + i) == q + line_end(r, i),
    decreases r.len() - i,
{
    lemma_holds_index(b, q, r, i);
    if r[i] != 10u8 {
        lemma_line_end_local(b, q, r, i + 1);
    }
}

proof fn lemma_quote_local(b: Seq<u8>, q: int, r: Seq<u8>, i: int, esc: bool)
    requires
        holds_at(b, q, r),
        0 <= i,
        quote_close(r, i, esc) is Some,
    ensures
        quote_close(b, q + i, esc) == Some(q + quote_close(r, i, esc)->Some_0),
    decreases r.len() - i,
{
    lemma_holds_index(b, q, r, i);
    if esc || r[i] != 34u8 {
        lemma_quote_local(b, q, r, i + 1, r[i] == 92u8 && !esc);
    }
}

proof fn lemma_find_local(b: Seq<u8>, q: int, r: Seq<u8>, c: u8, i: int)
    requires
        holds_at(b, q, r),
        0 <= i,
        find_from(r, c, i) is Some,
    ensures
        find_from(b, c, q + i) == Some(q + find_from(r, c, i)->Some_0),
    decreases r.len() - i,
{
    lemma_holds_index(b, q, r, i);
    if r[i] != c {
        lemma_find_local(b, q, r, c, i + 1);
    }
}

/// The region scanner over bytes `r` standing at `q` in `b` finds what it finds over `r` alone; at
/// `m` levels deeper it goes on past the closing bracket at `m` levels.
#[verifier::rlimit(60)]
proof fn lemma_scan_local(b: Seq<u8>, q: int, r: Seq<u8>, i: int, d: int, m: int)
    requires
        holds_at(b, q, r),
        0 <= i,
        d >= 1,
        m >= 0,
        region_scan(r, i, d) is Some,
    ensures
        region_scan(b, q + i, d + m) == if m == 0 {
            Some(q + region_scan(r, i, d)->Some_0)
        } else {
            region_scan(b, q + region_scan(r, i, d)->Some_0 + 1, m)
        },
    decreases r.len() - i,
{
    lemma_holds_index(b, q, r, i);
    if i + 1 < r.len() {
        lemma_holds_index(b, q, r, i + 1);
    }
    if i + 2 < r.len() {
        lemma_holds_index(b, q, r, i + 2);
    }
    if r[i] == 35u8 {
        lemma_line_end(r, i);
        assert(region_scan(r, line_end(r, i), d) is Some);
        lemma_line_end_local(b, q, r, i);
        lemma_scan_local(b, q, r, line_end(r, i), d, m);
    } else if r[i] == 34u8 {
        crate::source::lemma_quote_close(r, i + 1, false);
        lemma_quote_local(b, q, r, i + 1, false);
        let e = quote_close(r, i + 1, false)->Some_0;
        lemma_scan_local(b, q, r, e + 1, d, m);
    } else if math_open_at(r, i) {
        lemma_find_from(r, 93u8, i);
        lemma_find_local(b, q, r, 93u8, i);
        lemma_scan_local(b, q, r, find_from(r, 93u8, i)->Some_0 + 1, d, m);
    } else if region_open_at(r, i) {
        lemma_find_from(r, 93u8, i);
        lemma_find_local(b, q, r, 93u8, i);
        lemma_scan_local(b, q, r, find_from(r, 93u8, i)->Some_0 + 1, d + 1, m);
    } else if r[i] == 93u8 {
        if d > 1 {
            lemma_scan_local(b, q, r, i + 1, d - 1, m);
        }
    } else {
        if i + 1 < r.len() {
            if math_open_at(b, q + i) {
                assert(r[i] == 64u8);
                if r[i + 1] == 91u8 {
                    assert(math_open_at(r, i));
                }
                assert(r[i + 1] == 92u8);
                if i + 2 < r.len() {
                    assert(math_open_at(r, i));
                }
                assert(region_scan(r, i + 2, d) is None);
                assert(!math_open_at(r, i + 1) && !region_open_at(r, i + 1));
                assert(region_scan(r, i + 1, d) is None);
                assert(false);
            }
            assert(!region_open_at(b, q + i));
            lemma_scan_local(b, q, r, i + 1, d, m);
        } else {
            assert(region_scan(r, i + 1, d) is None);
        }
    }
}

/// Where the bracket that ends a verbatim region's name stands in its source, given that the
/// source reads as one region token with the region's name and body.
#[verifier::rlimit(100)]
#[verifier::spinoff_prover]
proof fn lemma_region_source_scan(name: Seq<u8>, negated: bool, text: Seq<u8>) -> (o: int)
    requires
        region_lexes(name, negated, text),
    ensures
        o == 2 + (if negated { 1int } else { 0int }) + name.len(),
        find_from(region_source(name, negated, text), 93u8, 0) == Some(o),
        region_scan(region_source(name, negated, text), o + 1, 1) == Some(region_source(name, negated, text).len() - 1),
        region_source(name, negated, text).subrange(2, o) == (if negated { seq![33u8] } else { Seq::<u8>::empty() }) + name,
        strip_bang(region_source(name, negated, text).subrange(2, o)) == name,
        (region_source(name, negated, text).subrange(2, o).len() > 0 && region_source(name, negated, text).subrange(2, o)[0] == 33u8) == negated,
{
    let rs = region_source(name, negated, text);
    let rf = "<region>".spec_bytes();
    let g = if negated { seq![33u8] } else { Seq::<u8>::empty() };
    assert(rs[0] == 91u8 && rs[1] == 91u8);
    assert(!is_space(rs[0]) && region_open_at(rs, 0) && !math_open_at(rs, 0));
    lemma_lex_step(rs, 0, rf, 0, 1);
    lemma_find_from(rs, 93u8, 0);
    let op = find_from(rs, 93u8, 0)->Some_0;
    lemma_region_scan(rs, op + 1, 1);
    let e = region_scan(rs, op + 1, 1)->Some_0;
    let t = lex_from(rs, 0, rf, 0, 1)->Ok_0[0];
    assert(t.text == rs.subrange(2, op));
    assert(t.body == rs.subrange(op + 1, e));
    assert(t.text =~= g + name) by {
        if negated {
            assert(t.text =~= seq![33u8] + strip_bang(t.text));
        } else {
            assert(strip_bang(t.text) == t.text);
        }
    }
    op
}

/// A verbatim region written at `pos` reads as one region token with its name, negation and body.
#[verifier::rlimit(60)]
proof fn lemma_text_tokens(b: Seq<u8>, base: int, file: Seq<u8>, pos: int, line: int, name: Seq<u8>, negated: bool, text: Seq<u8>) -> (r: (Seq<TokenView>, int))
    requires
        region_lexes(name, negated, text),
        holds_at(b, pos, region_source(name, negated, text)),
        pos + region_source(name, negated, text).len() < b.len(),
        line_ok(b, base, pos, line),
    ensures
        lex_from(b, base, file, pos, line) == prepend_all(r.0, lex_from(b, base, file, pos + region_source(name, negated, text).len(), r.1)),
        item_tree_shape(ItemView { span: None, kind: ItemKindView::ParamText { name, negated, text } }, r.0, file),
        r.0.len() == 1,
        r.0[0].kind == Kind::Region,
        r.0[0].span.line == line,
        line <= r.1,
        line_ok(b, base, pos + region_source(name, negated, text).len(), r.1),
{
    let rs = region_source(name, negated, text);
    let o = lemma_region_source_scan(name, negated, text);
    lemma_holds_index(b, pos, rs, 0);
    lemma_holds_index(b, pos, rs, 1);
    lemma_find_local(b, pos, rs, 93u8, 0);
    lemma_scan_local(b, pos, rs, o + 1, 1, 0);
    assert(b.subrange(pos + 2, pos + o) =~= rs.subrange(2, o)) by {
        assert forall|j: int| 0 <= j < o - 2 implies b.subrange(pos + 2, pos + o)[j] == rs.subrange(2, o)[j] by {
            lemma_holds_index(b, pos, rs, j + 2);
        }
    }
    let e = pos + rs.len() - 1;
    assert(b.subrange(pos + o + 1, e) =~= text) by {
        assert forall|j: int| 0 <= j < text.len() implies b.subrange(pos + o + 1, e)[j] == text[j] by {
            lemma_holds_index(b, pos, rs, j + o + 1);
            assert(rs[j + o + 1] == text[j]);
        }
    }
    lemma_lex_step(b, base, file, pos, line);
    lemma_tok_step(b, base, file, pos, line);
    lemma_tok_lines(b, base, file, pos, line);
    let (tok, l) = match lex_step(b, base, file, pos, line) {
        LexStep::Tok(tk, _, l) => (tk, l),
        _ => arbitrary(),
    };
    assert(tok.kind == Kind::Region && tok.body == text && !tok.quoted);
    assert(tok.text == rs.subrange(2, o));
    lemma_prepend_one(tok, lex_from(b, base, file, pos + rs.len(), l));
    (seq![tok], l)
}

/// Written items at depth `d`, separated by `sep`, read as their tokens one after another.
#[verifier::rlimit(60)]
proof fn lemma_tree_items_tokens(b: Seq<u8>, base: int, file: Seq<u8>, pos: int, line: int, items: Seq<ItemView>, d: nat, sep: Seq<u8>, x: Seq<u8>) -> (r: (Seq<TokenView>, int))
    requires
        tree_items(items),
        sep == seq![10u8] || sep == seq![10u8, 10u8],
        w_items(items, d, sep) == Ok::<Seq<u8>, ErrorView>(x),
        holds_at(b, pos, x),
        pos + x.len() < b.len(),
        b[pos + x.len()] == 10u8,
        line_ok(b, base, pos, line),
    ensures
        lex_from(b, base, file, pos, line) == prepend_all(r.0, lex_from(b, base, file, pos + x.len(), r.1)),
        items_tree_shape(items, r.0, file),
        r.0.len() == trees_len(items),
        lines_within(r.0, line, r.1),
        items.len() > 0 ==> r.0.len() > 0 && r.0[0].kind != Kind::Op,
        line <= r.1,
        line_ok(b, base, pos + x.len(), r.1),
    decreases items_size(items), 0nat,
{
    if items.len() == 0 {
        assert(x.len() == 0);
        if let Ok(rest) = lex_from(b, base, file, pos, line) {
            assert(Seq::<TokenView>::empty() + rest =~= rest);
        }
        (Seq::empty(), line)
    } else {
        let rest = items.subrange(1, items.len() as int);
        assert(item_size(items[0]) < items_size(items));
        assert(tree_item(items[0]) && tree_items(rest));
        if items.len() == 1 {
            let (t0, l0) = lemma_tree_item_tokens(b, base, file, pos, line, items[0], d, x);
            let n = tree_len(items[0]);
            assert(t0.take(n as int) =~= t0);
            assert(t0.skip(n as int) =~= Seq::<TokenView>::empty());
            assert(rest =~= Seq::<ItemView>::empty());
            assert(items_tree_shape(rest, t0.skip(n as int), file));
            assert(trees_len(rest) == 0);
            (t0, l0)
        } else {
            let x0 = w_item(items[0], d)->Ok_0;
            let xr = w_items(rest, d, sep)->Ok_0;
            assert(x =~= x0 + sep + xr);
            let n0 = x0.len() as int;
            let sl = sep.len() as int;
            assert(x.subrange(0, n0) =~= x0);
            lemma_sub_at(b, pos, x, 0, x0);
            lemma_holds_index(b, pos, x, n0);
            assert(x.subrange(n0 + sl, x.len() as int) =~= xr);
            lemma_sub_at(b, pos, x, n0 + sl, xr);
            let (t0, l0) = lemma_tree_item_tokens(b, base, file, pos, line, items[0], d, x0);
            lemma_skip_newline(b, base, file, pos + n0, l0);
            let lr0 = if sl == 2 {
                lemma_holds_index(b, pos, x, n0 + 1);
                lemma_skip_newline(b, base, file, pos + n0 + 1, l0 + 1);
                l0 + 2
            } else {
                l0 + 1
            };
            assert(items_size(rest) < items_size(items));
            let (tr, lr) = lemma_tree_items_tokens(b, base, file, pos + n0 + sl, lr0, rest, d, sep, xr);
            lemma_prepend_all_join(t0, tr, lex_from(b, base, file, pos + x.len(), lr));
            let ts = t0 + tr;
            let n = tree_len(items[0]);
            assert(ts.take(n as int) =~= t0);
            assert(ts.skip(n as int) =~= tr);
            assert(follow_ok(t0, tr)) by {
                if tr.len() > 0 {
                    assert(tr[0].span.line >= lr0);
                }
            }
            lemma_lines_join(t0, tr, line, l0, lr);
            (ts, lr)
        }
    }
}

// ---------------------------------------------------------------- reading written bodies back

/// Running from the frames `p` + `f` gives the same result as running from `p` + `g`.
pub open spec fn runs_to(p: Seq<FrameView>, f: FrameView, g: FrameView, file: Seq<u8>) -> bool {
    run_spec(p.push(f), file) == run_spec(p.push(g), file)
}

/// Bodies nest no deeper than the parser allows, for items read in a frame at depth `k`.
pub open spec fn fits(i: ItemView, k: int) -> bool
    decreases i,
{
    match i.kind {
        ItemKindView::Entry(e) => match e.value {
            ValueView::Container(c) => k + 1 <= MAX_NESTING_DEPTH && fits_all(c.items, k + 1),
            _ => true,
        },
        ItemKindView::Container(c) => k + 1 <= MAX_NESTING_DEPTH && fits_all(c.items, k + 1),
        ItemKindView::Param { items, .. } => k + 1 <= MAX_NESTING_DEPTH && fits_all(items, k + 1),
        ItemKindView::ParamText { name, negated, text } => region_reads_at(name, negated, text, k),
        _ => true,
    }
}

pub open spec fn fits_all(s: Seq<ItemView>, k: int) -> bool
    decreases s,
{
    if s.len() == 0 {
        true
    } else {
        fits(s[0], k) && fits_all(s.subrange(1, s.len() as int), k)
    }
}

pub(crate) proof fn lemma_run_step(frames: Seq<FrameView>, file: Seq<u8>)
    ensures
        iterate_spec(frames, file) matches Iteration::Continue(f) ==> run_spec(frames, file) == run_spec(f, file),
        iterate_spec(frames, file) matches Iteration::Finished(r) ==> run_spec(frames, file) == r,
{
    lemma_iterate_decreases(frames, file);
    lemma_frames_weight_nonneg(frames);
}

pub(crate) proof fn lemma_set_top_push(p: Seq<FrameView>, f: FrameView, g: FrameView)
    ensures
        set_top(p.push(f), g) == p.push(g),
        p.push(f).last() == f,
        p.push(f).len() == p.len() + 1,
        p.push(f).drop_last() == p,
{
    assert(p.push(f).update(p.len() as int, g) =~= p.push(g));
    assert(p.push(f).drop_last() =~= p);
}

/// A step that leaves `p` + `g` on the stack leaves the outcome of the run unchanged.
pub(crate) proof fn lemma_advance_to(frames: Seq<FrameView>, p: Seq<FrameView>, g: FrameView, file: Seq<u8>)
    requires
        frames.len() > 0,
        advance_spec(frames, file) == Ok::<Seq<FrameView>, ErrorView>(p.push(g)),
        !(g.attach is Container && g.toks.len() == 0),
    ensures
        run_spec(frames, file) == run_spec(p.push(g), file),
{
    reveal(iterate_spec);
    lemma_set_top_push(p, g, g);
    lemma_run_step(frames, file);
    if g.toks.len() == 0 && !(g.attach is Container) {
        assert(advance_spec(p.push(g), file) == Ok::<Seq<FrameView>, ErrorView>(p.push(g)));
        lemma_run_step(p.push(g), file);
    }
}

/// A scalar item, or an entry with a scalar value, is read in one step.
#[verifier::rlimit(60)]
proof fn lemma_scalar_run(p: Seq<FrameView>, f: FrameView, i: ItemView, ti: Seq<TokenView>, rest: Seq<TokenView>, file: Seq<u8>) -> (pi: ItemView)
    requires
        tree_item(i),
        i.kind is Scalar || (i.kind is Entry && i.kind->Entry_0.value is Scalar),
        item_tree_shape(i, ti, file),
        f.toks == ti + rest,
        follow_ok(ti, rest),
        rest.len() == 0 ==> !(f.attach is Container),
    ensures
        strip_item(pi) == strip_item(canon_item(i)),
        runs_to(p, f, FrameView { toks: rest, items: f.items.push(pi), ..f }, file),
{
    reveal(iterate_spec);
    let frames = p.push(f);
    lemma_set_top_push(p, f, f);
    let toks = f.toks;
    let first = toks[0];
    let rest1 = toks.drop_first();
    assert(ti[0] == first);
    let n = ti.len() as int;
    assert(toks.skip(n) =~= rest);
    if rest.len() > 0 {
        assert(toks[n] == rest[0]);
    }
    let pi = match i.kind {
        ItemKindView::Scalar(s) => {
            assert(rest1 =~= rest);
            ItemView { span: Some(first.span), kind: ItemKindView::Scalar(token_scalar(first)) }
        },
        _ => {
            let e = i.kind->Entry_0;
            assert(ti[1] == rest1[0]);
            assert(ti[2] == rest1.drop_first()[0]);
            assert(rest1.drop_first().drop_first() =~= rest);
            let value = rest1.drop_first()[0];
            assert(value.span.line < rest[0].span.line || rest.len() == 0 || rest[0].kind != Kind::Open) by {
                if rest.len() > 0 && rest[0].kind == Kind::Open {
                    assert(ti[2].span.line < rest[0].span.line);
                }
            }
            ItemView {
                span: Some(through(first.span, value.span)),
                kind: ItemKindView::Entry(EntryView { key: first.text, op: e.op, value: ValueView::Scalar(token_scalar(value)) }),
            }
        },
    };
    if i.kind is Scalar && rest.len() > 0 && rest[0].kind == Kind::Open {
        assert(ti[0].span.line < rest[0].span.line);
    }
    let g = FrameView { toks: rest, items: f.items.push(pi), ..f };
    lemma_set_top_push(p, f, g);
    lemma_set_top_push(p, f, FrameView { toks: rest1, ..f });
    assert(advance_spec(frames, file) == Ok::<Seq<FrameView>, ErrorView>(p.push(g)));
    lemma_advance_to(frames, p, g, file);
    pi
}

/// Where a body's opening brace stands among the tokens of its item.
spec fn open_at(i: ItemView) -> int {
    match i.kind {
        ItemKindView::Entry(e) => 2 + if e.value->Container_0.header is Some { 1int } else { 0int },
        _ => 0,
    }
}

spec fn body_of(i: ItemView) -> ContainerView {
    match i.kind {
        ItemKindView::Entry(e) => e.value->Container_0,
        _ => i.kind->Container_0,
    }
}

spec fn entry_of(i: ItemView) -> Option<(Seq<u8>, Operator)> {
    match i.kind {
        ItemKindView::Entry(e) => Some((e.key, e.op)),
        _ => None,
    }
}

/// The child frame in which a body's items are read.
spec fn child_frame(f: FrameView, i: ItemView, ti: Seq<TokenView>, rest: Seq<TokenView>) -> FrameView {
    let oi = open_at(i);
    let span = if entry_of(i) is Some { ti[0].span } else { ti[oi].span };
    FrameView {
        toks: ti.subrange(oi + 1, ti.len() - 1) + seq![ti.last()] + rest,
        items: Seq::empty(),
        attach: AttachView::Container { entry: entry_of(i), header: body_of(i).header, span },
        diags: Seq::empty(),
        depth: f.depth + 1,
        end: f.end,
    }
}

/// Reading a body's opening tokens pushes its child frame.
#[verifier::rlimit(60)]
#[verifier::spinoff_prover]
proof fn lemma_open_body(p: Seq<FrameView>, f: FrameView, i: ItemView, ti: Seq<TokenView>, rest: Seq<TokenView>, file: Seq<u8>)
    requires
        tree_item(i),
        i.kind is Container || (i.kind is Entry && i.kind->Entry_0.value is Container),
        item_tree_shape(i, ti, file),
        f.toks == ti + rest,
        fits(i, f.depth),
        0 <= f.depth,
    ensures
        run_spec(p.push(f), file) == run_spec(p.push(FrameView { toks: Seq::empty(), ..f }).push(child_frame(f, i, ti, rest)), file),
        child_frame(f, i, ti, rest).toks.len() > 0,
{
    reveal(iterate_spec);
    let frames = p.push(f);
    lemma_set_top_push(p, f, f);
    let toks = f.toks;
    let c = body_of(i);
    let entry = entry_of(i);
    let oi = open_at(i);
    let child = child_frame(f, i, ti, rest);
    let inner = child.toks;
    assert(toks.skip(oi + 1) =~= inner);
    let f0 = FrameView { toks: Seq::empty(), ..f };
    let attach = child.attach;
    let s1 = p.push(f0).push(child);
    assert(push_container_spec(set_top(frames, FrameView { toks: inner, ..f }), file, attach) == Ok::<Seq<FrameView>, ErrorView>(s1)) by {
        lemma_set_top_push(p, f, FrameView { toks: inner, ..f });
        lemma_set_top_push(p, FrameView { toks: inner, ..f }, f0);
    }
    assert(advance_spec(frames, file) == Ok::<Seq<FrameView>, ErrorView>(s1)) by {
        assert(toks[0] == ti[0]);
        if entry is Some {
            assert(toks[1] == ti[1] && toks[2] == ti[2]);
            assert(toks.drop_first()[0] == ti[1]);
            assert(toks.drop_first().drop_first()[0] == ti[2]);
            if c.header is Some {
                assert(toks.drop_first().drop_first().drop_first()[0] == ti[3]);
                assert(toks.drop_first().drop_first().drop_first().drop_first() =~= inner);
            } else {
                assert(toks.drop_first().drop_first().drop_first() =~= inner);
            }
        } else {
            assert(toks.drop_first() =~= inner);
        }
        lemma_set_top_push(p, f, FrameView { toks: inner, ..f });
    }
    assert(inner.len() > 0);
    assert(s1.last() == child);
    lemma_run_step(frames, file);
}

/// Reading a body's closing brace pops its child frame and adds the item to the parent.
#[verifier::rlimit(60)]
#[verifier::spinoff_prover]
proof fn lemma_close_body(p: Seq<FrameView>, f: FrameView, child2: FrameView, close: TokenView, rest: Seq<TokenView>, file: Seq<u8>) -> (pi: ItemView)
    requires
        close.kind == Kind::Close,
        child2.toks == seq![close] + rest,
        child2.attach is Container,
        child2.diags.len() == 0,
        rest.len() == 0 ==> !(f.attach is Container),
    ensures
        pi == (ItemView {
            kind: match child2.attach->Container_entry {
                Some((key, op)) => ItemKindView::Entry(EntryView { key, op, value: ValueView::Container(ContainerView { header: child2.attach->Container_header, items: child2.items }) }),
                None => ItemKindView::Container(ContainerView { header: child2.attach->Container_header, items: child2.items }),
            },
            span: Some(through(child2.attach->Container_span, close.span)),
        }),
        run_spec(p.push(FrameView { toks: Seq::empty(), ..f }).push(child2), file)
            == run_spec(p.push(FrameView { toks: rest, items: f.items.push(pi), ..f }), file),
{
    reveal(iterate_spec);
    let f0 = FrameView { toks: Seq::empty(), ..f };
    let s2 = p.push(f0).push(child2);
    let pi = ItemView {
        kind: match child2.attach->Container_entry {
            Some((key, op)) => ItemKindView::Entry(EntryView { key, op, value: ValueView::Container(ContainerView { header: child2.attach->Container_header, items: child2.items }) }),
            None => ItemKindView::Container(ContainerView { header: child2.attach->Container_header, items: child2.items }),
        },
        span: Some(through(child2.attach->Container_span, close.span)),
    };
    let g = FrameView { toks: rest, items: f.items.push(pi), ..f };
    assert(f.diags + Seq::<super::ast::DiagnosticView>::empty() =~= f.diags);
    assert(advance_spec(s2, file) == Ok::<Seq<FrameView>, ErrorView>(p.push(g))) by {
        lemma_set_top_push(p.push(f0), child2, FrameView { toks: rest, ..child2 });
        assert((seq![close] + rest)[0] == close);
        assert((seq![close] + rest).drop_first() =~= rest);
        lemma_set_top_push(p, f0, g);
        assert(p.push(f0).push(FrameView { toks: rest, ..child2 }).drop_last() == p.push(f0));
    }
    lemma_advance_to(s2, p, g, file);
    pi
}

/// A body, anonymous or an entry's value, is read through a child frame.
#[verifier::rlimit(60)]
#[verifier::spinoff_prover]
proof fn lemma_body_run(p: Seq<FrameView>, f: FrameView, i: ItemView, ti: Seq<TokenView>, rest: Seq<TokenView>, file: Seq<u8>) -> (pi: ItemView)
    requires
        tree_item(i),
        i.kind is Container || (i.kind is Entry && i.kind->Entry_0.value is Container),
        item_tree_shape(i, ti, file),
        f.toks == ti + rest,
        fits(i, f.depth),
        0 <= f.depth,
        rest.len() == 0 ==> !(f.attach is Container),
    ensures
        strip_item(pi) == strip_item(canon_item(i)),
        runs_to(p, f, FrameView { toks: rest, items: f.items.push(pi), ..f }, file),
    decreases item_size(i), 1nat,
{
    let c = body_of(i);
    let oi = open_at(i);
    let close = ti.last();
    let body = ti.subrange(oi + 1, ti.len() - 1);
    let f0 = FrameView { toks: Seq::empty(), ..f };
    let child = child_frame(f, i, ti, rest);
    lemma_open_body(p, f, i, ti, rest, file);
    assert(ti.len() == oi + 2 + trees_len(c.items));
    assert(items_tree_shape(c.items, body, file));
    assert(items_size(c.items) < item_size(i));
    assert(tree_items(c.items) && fits_all(c.items, child.depth));
    assert(child.toks =~= body + (seq![close] + rest));
    let parsed = lemma_items_run(p.push(f0), child, c.items, body, seq![close] + rest, file);
    let child2 = FrameView { toks: seq![close] + rest, items: parsed, ..child };
    assert(child.items + parsed =~= parsed);
    let pi = lemma_close_body(p, f, child2, close, rest, file);
    assert(strip_item(pi) == strip_item(canon_item(i)));
    pi
}

/// The body of a written region reads as the tokens of its items.
#[verifier::rlimit(60)]
#[verifier::spinoff_prover]
proof fn lemma_region_body_tokens(body: Seq<u8>, bs: int, file: Seq<u8>, line: int, items: Seq<ItemView>, d: nat, wi: Seq<u8>)
    requires
        tree_items(items),
        w_items(items, d + 1, seq![10u8]) == Ok::<Seq<u8>, ErrorView>(wi),
        body == seq![10u8] + wi + region_close(items.len(), d).subrange(0, region_close(items.len(), d).len() - 1),
        0 <= bs,
        1 <= line <= bs,
        bs + body.len() < usize::MAX,
    ensures
        lex(body, bs, file, line) matches Ok(inner) && items_tree_shape(items, inner, file),
    decreases items_size(items), 5nat,
{
    let wl = wi.len() as int;
    assert(holds_at(body, 0, body)) by {
        assert(body.subrange(0, body.len() as int) =~= body);
    }
    lemma_holds_index(body, 0, body, 0);
    lemma_skip_newline(body, bs, file, 0, line);
    if items.len() > 0 {
        assert(body.subrange(1, 1 + wl) =~= wi);
        lemma_sub_at(body, 0, body, 1, wi);
        lemma_holds_index(body, 0, body, 1 + wl);
        let (it, l2) = lemma_tree_items_tokens(body, bs, file, 1, line + 1, items, d + 1, seq![10u8], wi);
        lemma_skip_newline(body, bs, file, 1 + wl, l2);
        assert(body.subrange(2 + wl, body.len() as int) =~= tabs(d));
        lemma_sub_at(body, 0, body, 2 + wl, tabs(d));
        lemma_skip_tabs(body, bs, file, 2 + wl, l2 + 1, d);
        assert(lex_from(body, bs, file, body.len() as int, l2 + 1) == Ok::<Seq<TokenView>, ErrorView>(Seq::empty()));
        assert(it + Seq::<TokenView>::empty() =~= it);
    } else {
        assert(wl == 0);
        assert(body.subrange(1, body.len() as int) =~= tabs(d));
        lemma_sub_at(body, 0, body, 1, tabs(d));
        lemma_skip_tabs(body, bs, file, 1, line + 1, d);
        assert(lex_from(body, bs, file, body.len() as int, line + 1) == Ok::<Seq<TokenView>, ErrorView>(Seq::empty()));
    }
}

/// A written region reads as one region token, whose body reads as the tokens of its items.
#[verifier::rlimit(60)]
#[verifier::spinoff_prover]
proof fn lemma_region_tokens(b: Seq<u8>, base: int, file: Seq<u8>, pos: int, line: int, name: Seq<u8>, negated: bool, items: Seq<ItemView>, d: nat, wi: Seq<u8>, t: Seq<u8>) -> (r: (Seq<TokenView>, int))
    requires
        tree_items(items),
        bare_token(name),
        w_items(items, d + 1, seq![10u8]) == Ok::<Seq<u8>, ErrorView>(wi),
        t == region_open(name, negated) + wi + region_close(items.len(), d),
        holds_at(b, pos, t),
        pos + t.len() < b.len(),
        line_ok(b, base, pos, line),
    ensures
        lex_from(b, base, file, pos, line) == prepend_all(r.0, lex_from(b, base, file, pos + t.len(), r.1)),
        item_tree_shape(ItemView { span: None, kind: ItemKindView::Param { name, negated, items } }, r.0, file),
        r.0.len() == 1,
        r.0[0].span.line == line,
        line <= r.1,
        line_ok(b, base, pos + t.len(), r.1),
    decreases items_size(items), 6nat,
{
    let ro = region_open(name, negated);
    let rc = region_close(items.len(), d);
    let g = if negated { seq![33u8] } else { Seq::<u8>::empty() };
    let opener = pos + ro.len() - 2;
    let wl = wi.len() as int;
    assert(t.subrange(0, ro.len() as int) =~= ro);
    lemma_sub_at(b, pos, t, 0, ro);
    lemma_scan_region_open(b, pos, name, negated);
    let full = b.subrange(pos + 2, opener);
    assert(full == g + name);
    assert(strip_bang(full) == name) by {
        if negated {
            assert(full.subrange(1, full.len() as int) =~= name);
        } else {
            assert(!term_byte(name[0]));
        }
    }
    let inner_text = seq![10u8] + wi + rc;
    assert(t.subrange(ro.len() - 1, t.len() as int) =~= inner_text);
    lemma_sub_at(b, pos, t, ro.len() - 1, inner_text);
    lemma_scan_region_body(b, opener + 1, items, d, wi, 1);
    let e = opener + 1 + wl + rc.len();
    assert(e == pos + t.len() - 1);
    assert(region_scan(b, opener + 1, 1) == Some(e));
    lemma_holds_index(b, pos, t, 0);
    lemma_holds_index(b, pos, t, 1);
    lemma_lex_step(b, base, file, pos, line);
    lemma_tok_step(b, base, file, pos, line);
    lemma_tok_lines(b, base, file, pos, line);
    let (tok, l) = match lex_step(b, base, file, pos, line) {
        LexStep::Tok(tk, _, l) => (tk, l),
        _ => arbitrary(),
    };
    assert(tok.kind == Kind::Region && tok.text == full);
    let body = b.subrange(opener + 1, e);
    let bs = base + opener + 1;
    assert(tok.body == body);
    assert(tok.body_start as int == bs);
    assert(tok.span.line as int == line);
    assert(body =~= seq![10u8] + wi + rc.subrange(0, rc.len() - 1));
    lemma_region_body_tokens(body, bs, file, line, items, d, wi);
    lemma_prepend_one(tok, lex_from(b, base, file, pos + t.len(), l));
    (seq![tok], l)
}

/// A region is read through a child frame and completed as structured items.
#[verifier::rlimit(60)]
#[verifier::spinoff_prover]
proof fn lemma_region_run(p: Seq<FrameView>, f: FrameView, i: ItemView, ti: Seq<TokenView>, rest: Seq<TokenView>, file: Seq<u8>) -> (pi: ItemView)
    requires
        tree_item(i),
        i.kind is Param,
        item_tree_shape(i, ti, file),
        f.toks == ti + rest,
        fits(i, f.depth),
        0 <= f.depth,
        rest.len() == 0 ==> !(f.attach is Container),
    ensures
        strip_item(pi) == strip_item(canon_item(i)),
        runs_to(p, f, FrameView { toks: rest, items: f.items.push(pi), ..f }, file),
    decreases item_size(i), 1nat,
{
    reveal(iterate_spec);
    let items = i.kind->Param_items;
    let frames = p.push(f);
    lemma_set_top_push(p, f, f);
    let t = ti[0];
    assert(f.toks[0] == t);
    assert(f.toks.drop_first() =~= rest);
    let inner = lex(t.body, t.body_start as int, file, t.span.line as int)->Ok_0;
    let top1 = FrameView { toks: rest, ..f };
    let child = FrameView { toks: inner, items: Seq::empty(), attach: AttachView::Region(t), diags: Seq::empty(), depth: f.depth + 1, end: t.span };
    lemma_set_top_push(p, f, top1);
    assert(advance_spec(frames, file) == Ok::<Seq<FrameView>, ErrorView>(p.push(top1).push(child)));
    lemma_advance_to(frames, p.push(top1), child, file);
    assert(items_size(items) < item_size(i));
    assert(inner =~= inner + Seq::<TokenView>::empty());
    let parsed = lemma_items_run(p.push(top1), child, items, inner, Seq::empty(), file);
    let child2 = FrameView { toks: Seq::empty(), items: parsed, ..child };
    assert(child.items + parsed =~= parsed);
    let pi = ItemView { span: Some(t.span), kind: ItemKindView::Param { name: strip_bang(t.text), negated: is_negated(t), items: parsed } };
    let g = FrameView { toks: rest, items: f.items.push(pi), ..f };
    assert(run_spec(p.push(top1).push(child2), file) == run_spec(p.push(g), file)) by {
        let s2 = p.push(top1).push(child2);
        lemma_set_top_push(p.push(top1), child2, child2);
        assert(advance_spec(s2, file) == Ok::<Seq<FrameView>, ErrorView>(s2));
        assert(!needs_verbatim(Seq::<super::ast::DiagnosticView>::empty()));
        assert(top1.diags + Seq::<super::ast::DiagnosticView>::empty() =~= top1.diags);
        lemma_set_top_push(p, top1, g);
        assert(complete_region_spec(p.push(top1), t, parsed, Seq::empty()) == p.push(g));
        lemma_run_step(s2, file);
    }
    pi
}

/// Items are read one after another in the top frame.
proof fn lemma_items_run(p: Seq<FrameView>, f: FrameView, items: Seq<ItemView>, ts: Seq<TokenView>, rest: Seq<TokenView>, file: Seq<u8>) -> (parsed: Seq<ItemView>)
    requires
        tree_items(items),
        items_tree_shape(items, ts, file),
        f.toks == ts + rest,
        fits_all(items, f.depth),
        0 <= f.depth,
        rest.len() > 0 ==> rest[0].kind == Kind::Close,
        rest.len() == 0 ==> !(f.attach is Container),
    ensures
        strip_items(parsed) == strip_items(canon_items(items)),
        runs_to(p, f, FrameView { toks: rest, items: f.items + parsed, ..f }, file),
    decreases items_size(items), 2nat,
{
    if items.len() == 0 {
        assert(ts.len() == 0);
        assert(f.toks =~= rest);
        assert(f.items + Seq::<ItemView>::empty() =~= f.items);
        assert(FrameView { toks: rest, items: f.items + Seq::<ItemView>::empty(), ..f } == f);
        Seq::empty()
    } else {
        let n = tree_len(items[0]) as int;
        let t0 = ts.take(n);
        let tr = ts.skip(n);
        let rest1 = tr + rest;
        let others = items.subrange(1, items.len() as int);
        assert(f.toks =~= t0 + rest1);
        assert(tree_item(items[0]) && tree_items(others));
        assert(fits(items[0], f.depth) && fits_all(others, f.depth));
        assert(follow_ok(t0, rest1)) by {
            if tr.len() > 0 {
                assert(rest1[0] == tr[0]);
            } else {
                assert(rest1 =~= rest);
            }
        }
        assert(item_size(items[0]) < items_size(items));
        let pi = if items[0].kind is Scalar || (items[0].kind is Entry && items[0].kind->Entry_0.value is Scalar) {
            lemma_scalar_run(p, f, items[0], t0, rest1, file)
        } else if items[0].kind is Param {
            lemma_region_run(p, f, items[0], t0, rest1, file)
        } else if let ItemKindView::ParamText { name, negated, text } = items[0].kind {
            assert(item_tree_shape(items[0], t0, file));
            assert(t0.len() == 1);
            assert(t0 =~= seq![t0[0]]);
            assert(f.toks =~= seq![t0[0]] + rest1);
            assert(rest1.len() == 0 ==> rest1 =~= rest);
            assert(region_reads_at(name, negated, text, f.depth));
            lemma_text_run(p, f, t0[0], rest1, file, name, negated, text);
            let pi = region_text_item(t0[0]);
            assert(pi.kind == items[0].kind);
            assert(canon_item(items[0]) == ItemView { kind: items[0].kind, span: items[0].span });
            pi
        } else {
            lemma_body_run(p, f, items[0], t0, rest1, file)
        };
        let f1 = FrameView { toks: rest1, items: f.items.push(pi), ..f };
        assert(items_size(others) < items_size(items));
        let pr = lemma_items_run(p, f1, others, tr, rest, file);
        let parsed = seq![pi] + pr;
        assert(f.items.push(pi) + pr =~= f.items + parsed);
        assert(parsed[0] == pi);
        assert(parsed.subrange(1, parsed.len() as int) =~= pr);
        assert(strip_items(parsed) =~= strip_items(canon_items(items))) by {
            assert(strip_items(parsed) == seq![strip_item(pi)] + strip_items(pr));
            let ci = canon_items(items);
            assert(ci == seq![canon_item(items[0])] + canon_items(others));
            assert(ci[0] == canon_item(items[0]));
            assert(ci.subrange(1, ci.len() as int) =~= canon_items(others));
            assert(strip_items(ci) == seq![strip_item(ci[0])] + strip_items(ci.subrange(1, ci.len() as int)));
        }
        assert(FrameView { toks: rest, items: f1.items + pr, ..f1 } == FrameView { toks: rest, items: f.items + parsed, ..f });
        parsed
    }
}

// ---------------------------------------------------------------- what writing needs of a tree

proof fn lemma_scalars_fit(items: Seq<ItemView>, k: int)
    requires
        all_scalars(items),
    ensures
        fits_all(items, k),
    decreases items.len(),
{
    if items.len() > 0 {
        let rest = items.subrange(1, items.len() as int);
        assert(items[0].kind is Scalar);
        assert forall|j: int| 0 <= j < rest.len() implies (#[trigger] rest[j]).kind is Scalar by {
            assert(rest[j] == items[j + 1]);
        }
        lemma_scalars_fit(rest, k);
        assert(fits(items[0], k));
    }
}

/// Every verbatim region of an item in a body at depth `k` reads back alone at the depth where it stands.
pub open spec fn region_fits(i: ItemView, k: int) -> bool
    decreases i,
{
    match i.kind {
        ItemKindView::Entry(e) => match e.value {
            ValueView::Container(c) => regions_fit(c.items, k + 1),
            _ => true,
        },
        ItemKindView::Container(c) => regions_fit(c.items, k + 1),
        ItemKindView::Param { items, .. } => regions_fit(items, k + 1),
        ItemKindView::ParamText { name, negated, text } => region_reads_at(name, negated, text, k),
        _ => true,
    }
}

pub open spec fn regions_fit(s: Seq<ItemView>, k: int) -> bool
    decreases s,
{
    if s.len() == 0 {
        true
    } else {
        region_fits(s[0], k) && regions_fit(s.subrange(1, s.len() as int), k)
    }
}

/// Every verbatim region of an item inside a body (below the top level) reads back alone at the
/// depth where it stands.
pub open spec fn region_fits_below(i: ItemView, k: int) -> bool
    decreases i,
{
    match i.kind {
        ItemKindView::Entry(e) => match e.value {
            ValueView::Container(c) => regions_fit_below(c.items, k + 1),
            _ => true,
        },
        ItemKindView::Container(c) => regions_fit_below(c.items, k + 1),
        ItemKindView::Param { items, .. } => regions_fit_below(items, k + 1),
        ItemKindView::ParamText { name, negated, text } => k == 0 || region_reads_at(name, negated, text, k),
        _ => true,
    }
}

pub open spec fn regions_fit_below(s: Seq<ItemView>, k: int) -> bool
    decreases s,
{
    if s.len() == 0 {
        true
    } else {
        region_fits_below(s[0], k) && regions_fit_below(s.subrange(1, s.len() as int), k)
    }
}

proof fn lemma_below_deep(s: Seq<ItemView>, k: int)
    requires
        k >= 1,
        regions_fit_below(s, k),
    ensures
        regions_fit(s, k),
    decreases s,
{
    if s.len() > 0 {
        let i = s[0];
        assert(region_fits_below(i, k));
        assert(regions_fit_below(s.subrange(1, s.len() as int), k));
        match i.kind {
            ItemKindView::Entry(e) => {
                if let ValueView::Container(c) = e.value {
                    lemma_below_deep(c.items, k + 1);
                }
            },
            ItemKindView::Container(c) => lemma_below_deep(c.items, k + 1),
            ItemKindView::Param { items, .. } => lemma_below_deep(items, k + 1),
            _ => {},
        }
        lemma_below_deep(s.subrange(1, s.len() as int), k);
        assert(region_fits(i, k));
        assert(regions_fit(s, k) == (region_fits(s[0], k) && regions_fit(s.subrange(1, s.len() as int), k)));
    }
}

/// A verbatim region that was written at the top level reads back alone there.
proof fn lemma_top_regions(items: Seq<ItemView>, sep: Seq<u8>, x: Seq<u8>)
    requires
        w_items(items, 0, sep) == Ok::<Seq<u8>, ErrorView>(x),
        x.len() < usize::MAX,
        regions_fit_below(items, 0),
    ensures
        regions_fit(items, 0),
    decreases items.len(),
{
    if items.len() > 0 {
        let i = items[0];
        let rest = items.subrange(1, items.len() as int);
        assert(region_fits_below(i, 0));
        assert(regions_fit_below(rest, 0));
        let x0 = w_item(i, 0)->Ok_0;
        assert(w_item(i, 0) is Ok && x0.len() <= x.len());
        if items.len() > 1 {
            let xr = w_items(rest, 0, sep)->Ok_0;
            assert(w_items(rest, 0, sep) is Ok && xr.len() <= x.len());
            lemma_top_regions(rest, sep, xr);
        }
        match i.kind {
            ItemKindView::Entry(e) => {
                if let ValueView::Container(c) = e.value {
                    lemma_below_deep(c.items, 1);
                }
            },
            ItemKindView::Container(c) => lemma_below_deep(c.items, 1),
            ItemKindView::Param { items, .. } => lemma_below_deep(items, 1),
            ItemKindView::ParamText { name, negated, text } => {
                assert(super::ast::region_problem(name, negated, text) is None);
                assert(x0 =~= tabs(0) + region_source(name, negated, text));
                super::region_read::lemma_problem_free_reads(name, negated, text);
            },
            _ => {},
        }
        assert(region_fits(i, 0));
        assert(regions_fit(items, 0) == (region_fits(items[0], 0) && regions_fit(rest, 0)));
    }
}

/// Text written from items whose verbatim regions below the top level read back alone at their
/// depth meets `regions_fit`: regions at the top level are covered by the writer's own check.
pub proof fn lemma_written_regions_fit(items: Seq<ItemView>)
    requires
        regions_fit_below(items, 0),
        spec_serialize(items) is Ok,
        spec_serialize(items)->Ok_0.len() < usize::MAX,
    ensures
        regions_fit(items, 0),
{
    let x = w_items(items, 0, seq![10u8, 10u8])->Ok_0;
    assert(w_items(items, 0, seq![10u8, 10u8]) is Ok);
    lemma_top_regions(items, seq![10u8, 10u8], x);
}

/// An item that can be written at depth `d` can be read in a frame at depth `d`.
proof fn lemma_w_item_fits(i: ItemView, d: nat)
    requires
        w_item(i, d) is Ok,
        region_fits(i, d as int),
    ensures
        fits(i, d as int),
    decreases item_size(i), 2nat,
{
    match i.kind {
        ItemKindView::Entry(e) => {
            if let ValueView::Container(c) = e.value {
                assert(items_size(c.items) < item_size(i));
                lemma_w_body_fits(c, d);
            }
        },
        ItemKindView::Container(c) => {
            assert(items_size(c.items) < item_size(i));
            lemma_w_body_fits(c, d);
        },
        ItemKindView::Param { items, .. } => {
            assert(items_size(items) < item_size(i));
            lemma_w_items_fits(items, d + 1, seq![10u8]);
        },
        _ => {},
    }
}

proof fn lemma_w_body_fits(c: ContainerView, d: nat)
    requires
        w_body(c, d) is Ok,
        regions_fit(c.items, d + 1int),
    ensures
        d + 1 <= MAX_NESTING_DEPTH,
        fits_all(c.items, d + 1int),
    decreases items_size(c.items), 1nat,
{
    lemma_w_body(c, d);
    if c.items.len() == 0 {
    } else if all_scalars(c.items) {
        lemma_scalars_fit(c.items, d + 1int);
    } else {
        lemma_w_items_fits(c.items, d + 1, seq![10u8]);
    }
}

proof fn lemma_w_items_fits(items: Seq<ItemView>, d: nat, sep: Seq<u8>)
    requires
        w_items(items, d, sep) is Ok,
        regions_fit(items, d as int),
    ensures
        fits_all(items, d as int),
    decreases items_size(items), 0nat,
{
    if items.len() > 0 {
        let rest = items.subrange(1, items.len() as int);
        assert(item_size(items[0]) < items_size(items));
        if items.len() > 1 {
            assert(items_size(rest) < items_size(items));
            lemma_w_items_fits(rest, d, sep);
        } else {
            assert(rest.len() == 0);
            assert(fits_all(rest, d as int));
        }
        lemma_w_item_fits(items[0], d);
        assert(fits(items[0], d as int));
    }
}

proof fn lemma_scalar_list_strip(items: Seq<ItemView>)
    ensures
        scalar_list(strip_items(items)) == scalar_list(items),
    decreases items.len(),
{
    lemma_strip_items(items);
    let si = strip_items(items);
    if items.len() > 0 {
        assert(inline_text(si[0]) == inline_text(items[0]));
        if items.len() > 1 {
            let rest = items.subrange(1, items.len() as int);
            assert(items.drop_first() =~= rest);
            lemma_strip_items(rest);
            assert(si.drop_first() =~= strip_items(rest));
            lemma_scalar_list_strip(rest);
        }
    }
}

/// Writing does not read source locations.
proof fn lemma_w_item_strip(i: ItemView, d: nat)
    ensures
        w_item(strip_item(i), d) == w_item(i, d),
    decreases item_size(i), 2nat,
{
    match i.kind {
        ItemKindView::Entry(e) => {
            if let ValueView::Container(c) = e.value {
                assert(items_size(c.items) < item_size(i));
                lemma_w_body_strip(c, d);
            }
        },
        ItemKindView::Container(c) => {
            assert(items_size(c.items) < item_size(i));
            lemma_w_body_strip(c, d);
        },
        ItemKindView::Param { name, negated, items } => {
            assert(items_size(items) < item_size(i));
            lemma_strip_items(items);
            lemma_w_items_strip(items, d + 1, seq![10u8]);
        },
        _ => {},
    }
}

proof fn lemma_w_body_strip(c: ContainerView, d: nat)
    ensures
        w_body(super::walk::strip_container(c), d) == w_body(c, d),
    decreases items_size(c.items), 1nat,
{
    let sc = super::walk::strip_container(c);
    lemma_w_body(c, d);
    lemma_w_body(sc, d);
    lemma_strip_items(c.items);
    assert(sc.items == strip_items(c.items));
    assert forall|k: int| 0 <= k < c.items.len() implies (#[trigger] sc.items[k]).kind is Scalar == c.items[k].kind is Scalar by {
        assert(sc.items[k] == strip_item(c.items[k]));
    }
    if all_scalars(c.items) {
        assert forall|k: int| 0 <= k < sc.items.len() implies #[trigger] sc.items[k].kind is Scalar by {
            assert(c.items[k].kind is Scalar);
        }
    }
    if all_scalars(sc.items) {
        assert forall|k: int| 0 <= k < c.items.len() implies #[trigger] c.items[k].kind is Scalar by {
            assert(sc.items[k].kind is Scalar);
        }
    }
    lemma_scalar_list_strip(c.items);
    lemma_w_items_strip(c.items, d + 1, seq![10u8]);
    assert(block_text(sc.items, d) == block_text(c.items, d));
}

proof fn lemma_w_items_strip(items: Seq<ItemView>, d: nat, sep: Seq<u8>)
    ensures
        w_items(strip_items(items), d, sep) == w_items(items, d, sep),
    decreases items_size(items), 0nat,
{
    lemma_strip_items(items);
    let si = strip_items(items);
    if items.len() > 0 {
        assert(item_size(items[0]) < items_size(items));
        lemma_w_item_strip(items[0], d);
        if items.len() > 1 {
            let rest = items.subrange(1, items.len() as int);
            assert(items_size(rest) < items_size(items));
            lemma_strip_items(rest);
            assert(si.subrange(1, si.len() as int) =~= strip_items(rest));
            lemma_w_items_strip(rest, d, sep);
        }
    }
}


proof fn lemma_canon_items(s: Seq<ItemView>)
    ensures
        canon_items(s).len() == s.len(),
        forall|j: int| 0 <= j < s.len() ==> #[trigger] canon_items(s)[j] == canon_item(s[j]),
    decreases s.len(),
{
    if s.len() > 0 {
        lemma_canon_items(s.subrange(1, s.len() as int));
        assert forall|j: int| 0 <= j < s.len() implies #[trigger] canon_items(s)[j] == canon_item(s[j]) by {
            if j > 0 {
                assert(s.subrange(1, s.len() as int)[j - 1] == s[j]);
            }
        }
    }
}

proof fn lemma_scalar_list_canon(items: Seq<ItemView>)
    ensures
        scalar_list(canon_items(items)) == scalar_list(items),
    decreases items.len(),
{
    lemma_canon_items(items);
    let ci = canon_items(items);
    if items.len() > 0 {
        assert(inline_text(ci[0]) == inline_text(items[0]));
        if items.len() > 1 {
            let rest = items.subrange(1, items.len() as int);
            assert(items.drop_first() =~= rest);
            lemma_canon_items(rest);
            assert(ci.drop_first() =~= canon_items(rest));
            lemma_scalar_list_canon(rest);
        }
    }
}

/// A string written quoted writes the same whether or not it is marked quoted.
proof fn lemma_w_item_canon(i: ItemView, d: nat)
    ensures
        w_item(canon_item(i), d) == w_item(i, d),
    decreases item_size(i), 2nat,
{
    match i.kind {
        ItemKindView::Entry(e) => {
            if let ValueView::Container(c) = e.value {
                assert(items_size(c.items) < item_size(i));
                lemma_w_body_canon(c, d);
            }
        },
        ItemKindView::Container(c) => {
            assert(items_size(c.items) < item_size(i));
            lemma_w_body_canon(c, d);
        },
        ItemKindView::Param { name, negated, items } => {
            assert(items_size(items) < item_size(i));
            lemma_canon_items(items);
            lemma_w_items_canon(items, d + 1, seq![10u8]);
        },
        _ => {},
    }
}

proof fn lemma_w_body_canon(c: ContainerView, d: nat)
    ensures
        w_body(ContainerView { header: c.header, items: canon_items(c.items) }, d) == w_body(c, d),
    decreases items_size(c.items), 1nat,
{
    let cc = ContainerView { header: c.header, items: canon_items(c.items) };
    lemma_w_body(c, d);
    lemma_w_body(cc, d);
    lemma_canon_items(c.items);
    assert forall|k: int| 0 <= k < c.items.len() implies (#[trigger] cc.items[k]).kind is Scalar == c.items[k].kind is Scalar by {
        assert(cc.items[k] == canon_item(c.items[k]));
    }
    if all_scalars(c.items) {
        assert forall|k: int| 0 <= k < cc.items.len() implies #[trigger] cc.items[k].kind is Scalar by {
            assert(c.items[k].kind is Scalar);
        }
    }
    if all_scalars(cc.items) {
        assert forall|k: int| 0 <= k < c.items.len() implies #[trigger] c.items[k].kind is Scalar by {
            assert(cc.items[k].kind is Scalar);
        }
    }
    lemma_scalar_list_canon(c.items);
    lemma_w_items_canon(c.items, d + 1, seq![10u8]);
    assert(block_text(cc.items, d) == block_text(c.items, d));
}

proof fn lemma_w_items_canon(items: Seq<ItemView>, d: nat, sep: Seq<u8>)
    ensures
        w_items(canon_items(items), d, sep) == w_items(items, d, sep),
    decreases items_size(items), 0nat,
{
    lemma_canon_items(items);
    let ci = canon_items(items);
    if items.len() > 0 {
        assert(item_size(items[0]) < items_size(items));
        lemma_w_item_canon(items[0], d);
        if items.len() > 1 {
            let rest = items.subrange(1, items.len() as int);
            assert(items_size(rest) < items_size(items));
            lemma_canon_items(rest);
            assert(ci.subrange(1, ci.len() as int) =~= canon_items(rest));
            lemma_w_items_canon(rest, d, sep);
        }
    }
}


/// A scalar's text, read on its own, reads back as that scalar, marked quoted if it had to be
/// written quoted, with no repairs.
pub proof fn law_scalar_text_reads_back(s: ScalarView, file: Seq<u8>)
    ensures
        spec_scalar_text(s) matches Ok(x) ==> (x.len() < usize::MAX && !starts_with_bom(x) ==> (spec_parse(x, file) matches Ok(doc)
            && doc.diagnostics.len() == 0
            && strip_items(doc.items) == seq![ItemView { span: None, kind: ItemKindView::Scalar(canon_scalar(s)) }])),
{
    if let Ok(x) = spec_scalar_text(s) {
        if x.len() < usize::MAX && !starts_with_bom(x) {
            reveal(spec_parse);
            assert(holds_at(x, 0, x)) by {
                assert(x.subrange(0, x.len() as int) =~= x);
            }
            lemma_scalar_token(x, 0, file, 0, 1, s, x);
            assert(x.len() > 0) by {
                if x.len() == 0 {
                    lemma_lex_step(x, 0, file, 0, 1);
                }
            }
            lemma_tok_step(x, 0, file, 0, 1);
            let (tok, l) = match lex_step(x, 0, file, 0, 1) {
                LexStep::Tok(t, _, l) => (t, l),
                _ => arbitrary(),
            };
            assert(lex_from(x, 0, file, x.len() as int, l) == Ok::<Seq<TokenView>, ErrorView>(Seq::empty()));
            let toks = seq![tok];
            assert(seq![tok] + Seq::<TokenView>::empty() =~= toks);
            assert(source_text(x) == (x, 0int));
            let root = root_frame(toks, end_span(x));
            let i = ItemView { span: None, kind: ItemKindView::Scalar(s) };
            let items = seq![i];
            assert(items.subrange(1, 1) =~= Seq::<ItemView>::empty());
            assert(toks.take(1) =~= toks);
            assert(toks.skip(1) =~= Seq::<TokenView>::empty());
            assert(items[0] == i);
            assert(tree_len(items[0]) == 1);
            assert(item_tree_shape(items[0], toks.take(1), file));
            assert(follow_ok(toks.take(1), toks.skip(1)));
            assert(items_tree_shape(items.subrange(1, 1), toks.skip(1), file));
            assert(items_tree_shape(items, toks, file));
            assert(tree_item(items[0]) && tree_items(items.subrange(1, 1)));
            assert(tree_items(items));
            assert(fits(items[0], 0) && fits_all(items.subrange(1, 1), 0));
            assert(fits_all(items, 0));
            assert(toks =~= toks + Seq::<TokenView>::empty());
            let parsed = lemma_items_run(Seq::empty(), root, items, toks, Seq::empty(), file);
            assert(root.items + parsed =~= parsed);
            assert(Seq::<FrameView>::empty().push(root) =~= seq![root]);
            let done = FrameView { toks: Seq::empty(), items: parsed, ..root };
            assert(Seq::<FrameView>::empty().push(done) =~= seq![done]);
            assert(run_spec(seq![done], file) == Ok::<(Seq<ItemView>, Seq<super::ast::DiagnosticView>), ErrorView>((parsed, Seq::empty()))) by {
                reveal(iterate_spec);
                assert(advance_spec(seq![done], file) == Ok::<Seq<FrameView>, ErrorView>(seq![done]));
                lemma_run_step(seq![done], file);
            }
            assert(canon_items(items) == seq![canon_item(i)] + canon_items(items.subrange(1, 1)));
            assert(canon_items(items) =~= seq![canon_item(i)]);
            assert(strip_items(seq![canon_item(i)]) == seq![strip_item(canon_item(i))] + strip_items(seq![canon_item(i)].subrange(1, 1)));
            assert(seq![canon_item(i)].subrange(1, 1) =~= Seq::<ItemView>::empty());
            assert(strip_items(seq![canon_item(i)]) =~= seq![strip_item(canon_item(i))]);
        }
    }
}


/// Writing never reads source locations: removing them changes neither the text nor the error.
pub proof fn law_serialize_ignores_spans(s: Seq<ItemView>)
    ensures
        spec_serialize(strip_items(s)) == spec_serialize(s),
{
    lemma_w_items_strip(s, 0, seq![10u8, 10u8]);
}

/// A bare token, read on its own, is exactly one unquoted word with its own text.
pub proof fn law_bare_token_one_word(t: Seq<u8>, base: int, file: Seq<u8>, line: int)
    requires
        bare_token(t),
    ensures
        lex(t, base, file, line) matches Ok(ts) && ts.len() == 1 && ts[0].kind == Kind::Word && !ts[0].quoted
            && ts[0].text == t,
{
    assert(holds_at(t, 0, t)) by {
        assert(t.subrange(0, t.len() as int) =~= t);
    }
    lemma_bare_word(t, base, file, 0, line, t);
    lemma_lex_step(t, base, file, 0, line);
    let (tok, l) = match lex_step(t, base, file, 0, line) {
        LexStep::Tok(tk, _, l) => (tk, l),
        _ => arbitrary(),
    };
    assert(lex_from(t, base, file, t.len() as int, l) == Ok::<Seq<TokenView>, ErrorView>(Seq::empty()));
    assert(seq![tok] + Seq::<TokenView>::empty() =~= seq![tok]);
}

proof fn lemma_quote_scan_fails(b: Seq<u8>, t: Seq<u8>, i: int)
    requires
        b == seq![34u8] + t + seq![34u8],
        0 <= i <= t.len(),
        !quotable_from(t, i),
    ensures
        quote_close(b, 1 + i, false) != Some(1 + t.len() as int),
    decreases t.len() - i,
{
    assert(b[1 + i] == t[i]);
    if t[i] == 92u8 {
        if i + 1 < t.len() {
            assert(b[2 + i] == t[i + 1]);
            lemma_quote_scan_fails(b, t, i + 2);
            assert(quote_close(b, 2 + i, true) == quote_close(b, 3 + i, false));
        } else {
            assert(quote_close(b, 2 + i, true) == quote_close(b, 3 + i, false));
        }
    } else if t[i] != 34u8 {
        lemma_quote_scan_fails(b, t, i + 1);
    }
}

/// Content is quotable exactly when, written between quotes, the scanner's closing-quote search
/// stops at the final quote.
pub proof fn law_quotable_closes(t: Seq<u8>)
    ensures
        quotable(t) <==> spec_quoted_end(seq![34u8] + t + seq![34u8], 0) == Some(t.len() + 1int),
{
    let b = seq![34u8] + t + seq![34u8];
    if quotable(t) {
        assert(holds_at(b, 1, t)) by {
            assert(b.subrange(1, 1 + t.len() as int) =~= t);
        }
        lemma_quote_scan(b, 0, t, 0);
    } else {
        lemma_quote_scan_fails(b, t, 0);
    }
}

/// Reading, stated by shape: a source whose tokens lay out a tree of items (anonymous bodies
/// without a header, structured conditional regions, bodies nested within the parser's limit, and
/// each item's tokens kept apart from the next) reads as exactly those items, apart from source
/// locations and the spelling of scalars, with no repairs.
pub proof fn law_tree_reading(src: Seq<u8>, file: Seq<u8>, items: Seq<ItemView>)
    requires
        tree_items(items),
        fits_all(items, 0),
        (lex(source_text(src).0, source_text(src).1, file, 1) matches Ok(toks) && items_tree_shape(items, toks, file)),
    ensures
        spec_parse(src, file) matches Ok(doc) && doc.diagnostics.len() == 0 && doc.file == file
            && strip_items(doc.items) == strip_items(canon_items(items)),
{
    reveal(spec_parse);
    let (t, base) = source_text(src);
    let toks = lex(t, base, file, 1)->Ok_0;
    let root = root_frame(toks, end_span(src));
    assert(toks =~= toks + Seq::<TokenView>::empty());
    let parsed = lemma_items_run(Seq::empty(), root, items, toks, Seq::empty(), file);
    assert(root.items + parsed =~= parsed);
    assert(Seq::<FrameView>::empty().push(root) =~= seq![root]);
    let done = FrameView { toks: Seq::empty(), items: parsed, ..root };
    assert(Seq::<FrameView>::empty().push(done) =~= seq![done]);
    assert(run_spec(seq![done], file) == Ok::<(Seq<ItemView>, Seq<super::ast::DiagnosticView>), ErrorView>((parsed, Seq::empty()))) by {
        reveal(iterate_spec);
        assert(advance_spec(seq![done], file) == Ok::<Seq<FrameView>, ErrorView>(seq![done]));
        lemma_run_step(seq![done], file);
    }
}

/// Writing a document of nested bodies, structured conditional regions and verbatim regions
/// (anonymous bodies without a header) and reading it back gives the same items, apart from source
/// locations and strings that had to be written quoted reading back marked quoted, with no repairs;
/// and writing what was read gives the same text again. A verbatim region inside a body must read
/// back when read alone at the depth where it stands (`regions_fit_below`), which only the nesting
/// limit can prevent; at the top level the writer's own check suffices. A verbatim region that the
/// checked constructor accepts meets `tree_item` (`lemma_problem_free_reads`).
pub proof fn law_tree_roundtrip(items: Seq<ItemView>, file: Seq<u8>)
    requires
        tree_items(items),
        regions_fit_below(items, 0),
    ensures
        spec_serialize(items) matches Ok(out) ==> out.len() < usize::MAX ==> (spec_parse(out, file) matches Ok(doc)
            && doc.diagnostics.len() == 0
            && strip_items(doc.items) == strip_items(canon_items(items))
            && spec_serialize(doc.items) == Ok::<Seq<u8>, ErrorView>(out)),
{
    if spec_serialize(items) is Ok && spec_serialize(items)->Ok_0.len() < usize::MAX {
        let out = spec_serialize(items)->Ok_0;
        lemma_written_regions_fit(items);
        reveal(spec_parse);
        let x = w_items(items, 0, seq![10u8, 10u8])->Ok_0;
        assert(out =~= x + seq![10u8]);
        assert(holds_at(out, 0, x)) by {
            assert(out.subrange(0, x.len() as int) =~= x);
        }
        let (toks, l) = lemma_tree_items_tokens(out, 0, file, 0, 1, items, 0, seq![10u8, 10u8], x);
        lemma_skip_newline(out, 0, file, x.len() as int, l);
        assert(lex_from(out, 0, file, x.len() as int + 1, l + 1) == Ok::<Seq<TokenView>, ErrorView>(Seq::empty()));
        assert(toks + Seq::<TokenView>::empty() =~= toks);
        assert(source_text(out) == (out, 0int));
        let end = end_span(out);
        let root = root_frame(toks, end);
        lemma_w_items_fits(items, 0, seq![10u8, 10u8]);
        assert(toks =~= toks + Seq::<TokenView>::empty());
        let parsed = lemma_items_run(Seq::empty(), root, items, toks, Seq::empty(), file);
        assert(root.items + parsed =~= parsed);
        assert(Seq::<FrameView>::empty().push(root) =~= seq![root]);
        let done = FrameView { toks: Seq::empty(), items: parsed, ..root };
        assert(Seq::<FrameView>::empty().push(done) =~= seq![done]);
        assert(run_spec(seq![done], file) == Ok::<(Seq<ItemView>, Seq<super::ast::DiagnosticView>), ErrorView>((parsed, Seq::empty()))) by {
            reveal(iterate_spec);
            assert(advance_spec(seq![done], file) == Ok::<Seq<FrameView>, ErrorView>(seq![done]));
            lemma_run_step(seq![done], file);
        }
        lemma_w_items_strip(parsed, 0, seq![10u8, 10u8]);
        lemma_w_items_strip(canon_items(items), 0, seq![10u8, 10u8]);
        lemma_w_items_canon(items, 0, seq![10u8, 10u8]);
    }
}


// ---------------------------------------------------------------- where a region body ends

/// A byte that the region scanner passes over.
pub open spec fn scan_plain(b: Seq<u8>, j: int) -> bool {
    b[j] != 35u8 && b[j] != 34u8 && b[j] != 93u8 && b[j] != 91u8 && !math_open_at(b, j)
}

proof fn lemma_scan_plain(b: Seq<u8>, p: int, q: int, k: int)
    requires
        0 <= p <= q <= b.len(),
        forall|j: int| p <= j < q ==> scan_plain(b, j),
    ensures
        region_scan(b, p, k) == region_scan(b, q, k),
    decreases q - p,
{
    if p < q {
        assert(scan_plain(b, p));
        lemma_scan_plain(b, p + 1, q, k);
    }
}

/// Tabs, newlines and spaces are passed over.
proof fn lemma_scan_blank(b: Seq<u8>, p: int, q: int, k: int)
    requires
        0 <= p <= q <= b.len(),
        forall|j: int| p <= j < q ==> b[j] == 9u8 || b[j] == 10u8 || b[j] == 32u8,
    ensures
        region_scan(b, p, k) == region_scan(b, q, k),
{
    assert forall|j: int| p <= j < q implies scan_plain(b, j) by {}
    lemma_scan_plain(b, p, q, k);
}

/// The scanner passes over a token just as the tokenizer reads it, except over brackets and
/// regions, and a word followed by what could open inline math.
#[verifier::rlimit(40)]
proof fn lemma_scan_tok(b: Seq<u8>, base: int, file: Seq<u8>, pos: int, line: int, k: int)
    requires
        0 <= pos < b.len(),
        lex_step(b, base, file, pos, line) matches LexStep::Tok(t, q, _) && t.kind != Kind::Bracket
            && t.kind != Kind::Region && (q < b.len() ==> b[q] != 91u8 && b[q] != 92u8),
    ensures
        lex_step(b, base, file, pos, line) matches LexStep::Tok(t, q, _) && region_scan(b, pos, k) == region_scan(b, q, k),
{
    lemma_lex_step(b, base, file, pos, line);
    lemma_word_end(b, pos);
    if let LexStep::Tok(t, q, _) = lex_step(b, base, file, pos, line) {
        let ch = b[pos];
        if ch == 123u8 || ch == 125u8 || ch == 34u8 || (ch == 64u8 && math_open_at(b, pos)) {
        } else if ch == 61u8 || ch == 60u8 || ch == 62u8 || ch == 33u8 {
            assert forall|j: int| pos <= j < q implies scan_plain(b, j) by {}
            lemma_scan_plain(b, pos, q, k);
        } else {
            assert(q == word_end(b, pos));
            assert forall|j: int| pos <= j < q implies scan_plain(b, j) by {
                assert(!term_byte(b[j]));
                if j + 1 < q {
                    assert(!term_byte(b[j + 1]));
                }
                if j + 2 < q {
                    assert(!term_byte(b[j + 2]));
                }
            }
            lemma_scan_plain(b, pos, q, k);
        }
    }
}

/// A body that the scanner ends at depth one is passed over whole at any greater depth.
proof fn lemma_scan_shift(b: Seq<u8>, i: int, j: int, k: int)
    requires
        j >= 1,
        k >= 1,
        region_scan(b, i, j) is Some,
    ensures
        region_scan(b, i, j + k) == region_scan(b, region_scan(b, i, j)->Some_0 + 1, k),
    decreases b.len() - i,
{
    if 0 <= i < b.len() {
        if b[i] == 35u8 {
            super::lexer::lemma_line_end(b, i);
            lemma_scan_shift(b, crate::source::line_end(b, i), j, k);
        } else if b[i] == 34u8 {
            crate::source::lemma_quote_close(b, i + 1, false);
            let e = spec_quoted_end(b, i)->Some_0;
            lemma_scan_shift(b, e + 1, j, k);
        } else if math_open_at(b, i) {
            lemma_find_from(b, 93u8, i);
            let e = find_from(b, 93u8, i)->Some_0;
            lemma_scan_shift(b, e + 1, j, k);
        } else if region_open_at(b, i) {
            lemma_find_from(b, 93u8, i);
            let e = find_from(b, 93u8, i)->Some_0;
            lemma_scan_shift(b, e + 1, j + 1, k);
        } else if b[i] == 93u8 {
            if j - 1 != 0 {
                lemma_scan_shift(b, i + 1, j - 1, k);
            }
        } else {
            lemma_scan_shift(b, i + 1, j, k);
        }
    }
}


/// The bytes `x` at `pos` are all passed over as tabs, newlines or spaces.
proof fn lemma_scan_blank_at(b: Seq<u8>, pos: int, x: Seq<u8>, k: int)
    requires
        0 <= pos,
        holds_at(b, pos, x),
        pos + x.len() <= b.len(),
        forall|j: int| 0 <= j < x.len() ==> x[j] == 9u8 || x[j] == 10u8 || x[j] == 32u8,
    ensures
        region_scan(b, pos, k) == region_scan(b, pos + x.len(), k),
{
    assert forall|j: int| pos <= j < pos + x.len() implies b[j] == 9u8 || b[j] == 10u8 || b[j] == 32u8 by {
        lemma_holds_index(b, pos, x, j - pos);
    }
    lemma_scan_blank(b, pos, pos + x.len(), k);
}

/// A written scalar is passed over whole.
proof fn lemma_scan_scalar(b: Seq<u8>, pos: int, s: ScalarView, x: Seq<u8>, k: int)
    requires
        0 <= pos,
        spec_scalar_text(s) == Ok::<Seq<u8>, ErrorView>(x),
        holds_at(b, pos, x),
        pos + x.len() < b.len(),
        b[pos + x.len()] == 10u8 || b[pos + x.len()] == 32u8,
    ensures
        region_scan(b, pos, k) == region_scan(b, pos + x.len(), k),
{
    lemma_scalar_token(b, 0, Seq::empty(), pos, 1, s, x);
    lemma_scan_tok(b, 0, Seq::empty(), pos, 1, k);
}

/// A written key and operator are passed over whole.
proof fn lemma_scan_lead(b: Seq<u8>, pos: int, key: Seq<u8>, op: Operator, k: int)
    requires
        0 <= pos,
        bare_key(key) || quotable(key),
        holds_at(b, pos, lead_text(key, op)),
        pos + lead_text(key, op).len() < b.len(),
    ensures
        region_scan(b, pos, k) == region_scan(b, pos + lead_text(key, op).len(), k),
{
    let x = lead_text(key, op);
    let kt = if bare_key(key) { key } else { seq![34u8] + key + seq![34u8] };
    let o = op_spelling(op);
    let kl = kt.len() as int;
    let ol = o.len() as int;
    let p1 = pos + kl;
    let p2 = p1 + 1;
    let p3 = p2 + ol;
    let e = Seq::<u8>::empty();
    assert(x.subrange(0, kl) =~= kt);
    lemma_sub_at(b, pos, x, 0, kt);
    lemma_holds_index(b, pos, x, kl);
    assert(x.subrange(kl + 1, kl + 1 + ol) =~= o);
    lemma_sub_at(b, pos, x, kl + 1, o);
    lemma_holds_index(b, pos, x, kl + 1 + ol);
    if bare_key(key) {
        lemma_bare_word(b, 0, e, pos, 1, key);
    } else {
        lemma_quoted_word(b, 0, e, pos, 1, key);
    }
    lemma_scan_tok(b, 0, e, pos, 1, k);
    lemma_scan_blank(b, p1, p2, k);
    lemma_op_token(b, 0, e, p2, 1, op);
    lemma_scan_tok(b, 0, e, p2, 1, k);
    lemma_scan_blank(b, p3, p3 + 1, k);
}

/// A written list of scalars is passed over whole.
proof fn lemma_scan_list(b: Seq<u8>, pos: int, items: Seq<ItemView>, x: Seq<u8>, k: int)
    requires
        0 <= pos,
        all_scalars(items),
        tree_items(items),
        scalar_list(items) == Ok::<Seq<u8>, ErrorView>(x),
        holds_at(b, pos, x),
        pos + x.len() < b.len(),
        b[pos + x.len()] == 32u8,
    ensures
        region_scan(b, pos, k) == region_scan(b, pos + x.len(), k),
    decreases items.len(),
{
    if items.len() > 0 {
        let rest = items.subrange(1, items.len() as int);
        assert(rest =~= items.drop_first());
        assert(items[0].kind is Scalar);
        let s0 = items[0].kind->Scalar_0;
        let x0 = inline_text(items[0])->Ok_0;
        assert(tree_item(items[0]));
        assert forall|j: int| 0 <= j < rest.len() implies (#[trigger] rest[j]).kind is Scalar by {
            assert(rest[j] == items[j + 1]);
        }
        if items.len() == 1 {
            lemma_scan_scalar(b, pos, s0, x, k);
        } else {
            let xr = scalar_list(rest)->Ok_0;
            assert(x =~= x0 + seq![32u8] + xr);
            let n0 = x0.len() as int;
            assert(x.subrange(0, n0) =~= x0);
            lemma_sub_at(b, pos, x, 0, x0);
            lemma_holds_index(b, pos, x, n0);
            assert(x.subrange(n0 + 1, x.len() as int) =~= xr);
            lemma_sub_at(b, pos, x, n0 + 1, xr);
            lemma_scan_scalar(b, pos, s0, x0, k);
            lemma_scan_blank(b, pos + n0, pos + n0 + 1, k);
            lemma_scan_list(b, pos + n0 + 1, rest, xr, k);
        }
    }
}

/// The braces and items of a written body are passed over whole.
#[verifier::rlimit(40)]
proof fn lemma_scan_block(b: Seq<u8>, pos: int, items: Seq<ItemView>, d: nat, y: Seq<u8>, k: int)
    requires
        0 <= pos,
        k >= 1,
        tree_items(items),
        d < MAX_NESTING_DEPTH,
        block_text(items, d) == Ok::<Seq<u8>, ErrorView>(y),
        holds_at(b, pos, y),
        pos + y.len() < b.len(),
    ensures
        region_scan(b, pos, k) == region_scan(b, pos + y.len(), k),
    decreases items_size(items), 2nat,
{
    lemma_holds_index(b, pos, y, 0);
    lemma_holds_index(b, pos, y, 1);
    let yl = y.len() as int;
    if items.len() == 0 {
        assert(y == seq![123u8, 125u8]);
        assert forall|j: int| pos <= j < pos + 2 implies scan_plain(b, j) by {
            lemma_holds_index(b, pos, y, j - pos);
        }
        lemma_scan_plain(b, pos, pos + 2, k);
    } else if all_scalars(items) {
        let sl = scalar_list(items)->Ok_0;
        assert(y =~= seq![123u8, 32u8] + sl + seq![32u8, 125u8]);
        let sll = sl.len() as int;
        assert(y.subrange(2, 2 + sll) =~= sl);
        lemma_sub_at(b, pos, y, 2, sl);
        lemma_holds_index(b, pos, y, 2 + sll);
        lemma_holds_index(b, pos, y, 3 + sll);
        assert forall|j: int| pos <= j < pos + 2 implies scan_plain(b, j) by {
            lemma_holds_index(b, pos, y, j - pos);
        }
        lemma_scan_plain(b, pos, pos + 2, k);
        lemma_scan_list(b, pos + 2, items, sl, k);
        assert forall|j: int| pos + 2 + sll <= j < pos + yl implies scan_plain(b, j) by {
            lemma_holds_index(b, pos, y, j - pos);
        }
        lemma_scan_plain(b, pos + 2 + sll, pos + yl, k);
    } else {
        let wi = w_items(items, d + 1, seq![10u8])->Ok_0;
        assert(y =~= seq![123u8, 10u8] + wi + (seq![10u8] + tabs(d) + seq![125u8]));
        let wl = wi.len() as int;
        assert(y.subrange(2, 2 + wl) =~= wi);
        lemma_sub_at(b, pos, y, 2, wi);
        lemma_holds_index(b, pos, y, 2 + wl);
        assert forall|j: int| pos <= j < pos + 2 implies scan_plain(b, j) by {
            lemma_holds_index(b, pos, y, j - pos);
        }
        lemma_scan_plain(b, pos, pos + 2, k);
        lemma_scan_items(b, pos + 2, items, d + 1, seq![10u8], wi, k);
        assert forall|j: int| pos + 2 + wl <= j < pos + yl implies scan_plain(b, j) by {
            lemma_holds_index(b, pos, y, j - pos);
            if j - pos >= 3 + wl && j - pos < 3 + wl + d {
                assert(y[j - pos] == tabs(d)[j - pos - 3 - wl]);
            }
        }
        lemma_scan_plain(b, pos + 2 + wl, pos + yl, k);
    }
}

/// A written body, with its header if any, is passed over whole.
proof fn lemma_scan_body(b: Seq<u8>, pos: int, c: ContainerView, d: nat, y: Seq<u8>, k: int)
    requires
        0 <= pos,
        k >= 1,
        tree_items(c.items),
        w_body(c, d) == Ok::<Seq<u8>, ErrorView>(y),
        holds_at(b, pos, y),
        pos + y.len() < b.len(),
    ensures
        region_scan(b, pos, k) == region_scan(b, pos + y.len(), k),
    decreases items_size(c.items), 3nat,
{
    lemma_w_body(c, d);
    let ht = header_text(c.header);
    let blk = block_text(c.items, d)->Ok_0;
    assert(y == ht + blk);
    let hl = ht.len() as int;
    assert(y.subrange(hl, y.len() as int) =~= blk);
    lemma_sub_at(b, pos, y, hl, blk);
    if let Some(hh) = c.header {
        assert(y.subrange(0, hh.len() as int) =~= hh);
        lemma_sub_at(b, pos, y, 0, hh);
        lemma_holds_index(b, pos, y, hh.len() as int);
        lemma_bare_word(b, 0, Seq::empty(), pos, 1, hh);
        lemma_scan_tok(b, 0, Seq::empty(), pos, 1, k);
        lemma_scan_blank(b, pos + hh.len(), pos + hl, k);
    }
    lemma_scan_block(b, pos + hl, c.items, d, blk, k);
}

/// The opening of a written region, up to its body.
proof fn lemma_scan_region_open(b: Seq<u8>, pos: int, name: Seq<u8>, negated: bool)
    requires
        0 <= pos,
        bare_token(name),
        holds_at(b, pos, region_open(name, negated)),
        pos + region_open(name, negated).len() <= b.len(),
    ensures
        region_open_at(b, pos),
        find_from(b, 93u8, pos) == Some(pos + region_open(name, negated).len() - 2),
        b.subrange(pos + 2, pos + region_open(name, negated).len() - 2) == (if negated { seq![33u8] } else { Seq::<u8>::empty() }) + name,
{
    let x = region_open(name, negated);
    let g = if negated { seq![33u8] } else { Seq::<u8>::empty() };
    let o = x.len() - 2;
    lemma_holds_index(b, pos, x, 0);
    lemma_holds_index(b, pos, x, 1);
    lemma_holds_index(b, pos, x, o);
    assert forall|j: int| pos <= j < pos + o implies b[j] != 93u8 by {
        lemma_holds_index(b, pos, x, j - pos);
        if j - pos >= 2 + g.len() {
            assert(x[j - pos] == name[j - pos - 2 - g.len()]);
            assert(!term_byte(name[j - pos - 2 - g.len()]));
        }
    }
    lemma_find_exact(b, 93u8, pos, pos + o);
    assert(x.subrange(2, o) =~= g + name);
    lemma_sub_at(b, pos, x, 2, g + name);
}

/// The body and closing bracket of a written region: the scanner at depth one stops at the
/// closing bracket, and at a greater depth passes over it.
#[verifier::rlimit(40)]
proof fn lemma_scan_region_body(b: Seq<u8>, pos: int, items: Seq<ItemView>, d: nat, wi: Seq<u8>, k: int)
    requires
        0 <= pos,
        k >= 1,
        tree_items(items),
        w_items(items, d + 1, seq![10u8]) == Ok::<Seq<u8>, ErrorView>(wi),
        holds_at(b, pos, seq![10u8] + wi + region_close(items.len(), d)),
        pos + 1 + wi.len() + region_close(items.len(), d).len() <= b.len(),
    ensures
        ({
            let e = pos + wi.len() + region_close(items.len(), d).len();
            &&& b[e] == 93u8
            &&& region_scan(b, pos, k) == (if k == 1 { Some(e) } else { region_scan(b, e + 1, k - 1) })
        }),
    decreases items_size(items), 5nat,
{
    let rc = region_close(items.len(), d);
    let x = seq![10u8] + wi + rc;
    let wl = wi.len() as int;
    let e = pos + wl + rc.len();
    lemma_holds_index(b, pos, x, 0);
    lemma_holds_index(b, pos, x, x.len() - 1);
    lemma_scan_blank(b, pos, pos + 1, k);
    if items.len() > 0 {
        assert(x.subrange(1, 1 + wl) =~= wi);
        lemma_sub_at(b, pos, x, 1, wi);
        lemma_holds_index(b, pos, x, 1 + wl);
        lemma_scan_items(b, pos + 1, items, d + 1, seq![10u8], wi, k);
    } else {
        assert(wl == 0);
    }
    assert forall|j: int| pos + 1 + wl <= j < e implies b[j] == 9u8 || b[j] == 10u8 || b[j] == 32u8 by {
        lemma_holds_index(b, pos, x, j - pos);
        assert(x[j - pos] == rc[j - pos - 1 - wl]);
        if items.len() > 0 && j - pos - 1 - wl >= 1 {
            assert(rc[j - pos - 1 - wl] == tabs(d)[j - pos - 2 - wl]);
        } else if items.len() == 0 {
            assert(rc[j - pos - 1 - wl] == tabs(d)[j - pos - 1 - wl]);
        }
    }
    lemma_scan_blank(b, pos + 1 + wl, e, k);
}

/// A written item at depth `d` is passed over whole at any depth.
#[verifier::rlimit(60)]
#[verifier::spinoff_prover]
proof fn lemma_scan_item(b: Seq<u8>, pos: int, i: ItemView, d: nat, x: Seq<u8>, k: int)
    requires
        0 <= pos,
        k >= 1,
        tree_item(i),
        w_item(i, d) == Ok::<Seq<u8>, ErrorView>(x),
        holds_at(b, pos, x),
        pos + x.len() < b.len(),
        b[pos + x.len()] == 10u8,
    ensures
        region_scan(b, pos, k) == region_scan(b, pos + x.len(), k),
    decreases item_size(i), 4nat,
{
    let t = x.subrange(d as int, x.len() as int);
    assert(x.subrange(0, d as int) =~= tabs(d));
    lemma_sub_at(b, pos, x, 0, tabs(d));
    lemma_sub_at(b, pos, x, d as int, t);
    assert forall|j: int| 0 <= j < tabs(d).len() implies tabs(d)[j] == 9u8 || tabs(d)[j] == 10u8 || tabs(d)[j] == 32u8 by {}
    lemma_scan_blank_at(b, pos, tabs(d), k);
    let p = pos + d;
    match i.kind {
        ItemKindView::Scalar(s) => {
            assert(t == spec_scalar_text(s)->Ok_0);
            lemma_scan_scalar(b, p, s, t, k);
        },
        ItemKindView::Entry(e) => {
            let lead = lead_text(e.key, e.op);
            let ll = lead.len() as int;
            assert(t.subrange(0, ll) =~= lead);
            lemma_sub_at(b, p, t, 0, lead);
            lemma_scan_lead(b, p, e.key, e.op, k);
            match e.value {
                ValueView::Scalar(s) => {
                    let v = spec_scalar_text(s)->Ok_0;
                    assert(t =~= lead + v);
                    assert(t.subrange(ll, t.len() as int) =~= v);
                    lemma_sub_at(b, p, t, ll, v);
                    lemma_scan_scalar(b, p + ll, s, v, k);
                },
                ValueView::Container(c) => {
                    let y = w_body(c, d)->Ok_0;
                    assert(t =~= lead + y);
                    assert(t.subrange(ll, t.len() as int) =~= y);
                    lemma_sub_at(b, p, t, ll, y);
                    assert(items_size(c.items) < item_size(i));
                    lemma_scan_body(b, p + ll, c, d, y, k);
                },
            }
        },
        ItemKindView::Container(c) => {
            assert(t == w_body(c, d)->Ok_0);
            assert(items_size(c.items) < item_size(i));
            lemma_scan_body(b, p, c, d, t, k);
        },
        ItemKindView::Param { name, negated, items } => {
            let ro = region_open(name, negated);
            let wi = w_items(items, d + 1, seq![10u8])->Ok_0;
            let rc = region_close(items.len(), d);
            assert(t =~= ro + wi + rc);
            let o = ro.len() - 2;
            assert(t.subrange(0, ro.len() as int) =~= ro);
            lemma_sub_at(b, p, t, 0, ro);
            lemma_scan_region_open(b, p, name, negated);
            assert(t.subrange(o + 1, t.len() as int) =~= seq![10u8] + wi + rc);
            lemma_sub_at(b, p, t, o + 1, seq![10u8] + wi + rc);
            assert(items_size(items) < item_size(i));
            lemma_scan_region_body(b, p + o + 1, items, d, wi, k + 1);
        },
        ItemKindView::ParamText { name, negated, text } => {
            assert(t == region_source(name, negated, text));
            let o = lemma_region_source_scan(name, negated, text);
            lemma_holds_index(b, p, t, 0);
            lemma_holds_index(b, p, t, 1);
            lemma_find_local(b, p, t, 93u8, 0);
            lemma_scan_local(b, p, t, o + 1, 1, k);
        },
    }
}

/// Written items at depth `d`, separated by `sep`, are passed over whole at any depth.
proof fn lemma_scan_items(b: Seq<u8>, pos: int, items: Seq<ItemView>, d: nat, sep: Seq<u8>, x: Seq<u8>, k: int)
    requires
        0 <= pos,
        k >= 1,
        tree_items(items),
        sep == seq![10u8] || sep == seq![10u8, 10u8],
        w_items(items, d, sep) == Ok::<Seq<u8>, ErrorView>(x),
        holds_at(b, pos, x),
        pos + x.len() < b.len(),
        b[pos + x.len()] == 10u8,
    ensures
        region_scan(b, pos, k) == region_scan(b, pos + x.len(), k),
    decreases items_size(items), 0nat,
{
    if items.len() > 0 {
        let rest = items.subrange(1, items.len() as int);
        assert(item_size(items[0]) < items_size(items));
        assert(tree_item(items[0]) && tree_items(rest));
        if items.len() == 1 {
            lemma_scan_item(b, pos, items[0], d, x, k);
        } else {
            let x0 = w_item(items[0], d)->Ok_0;
            let xr = w_items(rest, d, sep)->Ok_0;
            assert(x =~= x0 + sep + xr);
            let n0 = x0.len() as int;
            let sl = sep.len() as int;
            assert(x.subrange(0, n0) =~= x0);
            lemma_sub_at(b, pos, x, 0, x0);
            lemma_holds_index(b, pos, x, n0);
            assert(x.subrange(n0 + sl, x.len() as int) =~= xr);
            lemma_sub_at(b, pos, x, n0 + sl, xr);
            lemma_scan_item(b, pos, items[0], d, x0, k);
            assert(x.subrange(n0, n0 + sl) =~= sep);
            lemma_sub_at(b, pos, x, n0, sep);
            lemma_scan_blank_at(b, pos + n0, sep, k);
            assert(items_size(rest) < items_size(items));
            lemma_scan_items(b, pos + n0 + sl, rest, d, sep, xr, k);
        }
    }
}

} // verus!
