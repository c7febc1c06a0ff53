//! A conditional region reads the same wherever it stands: its reading depends on its body and
//! its depth, not on where the body lies in the source, the file label, or what encloses it.
use vstd::prelude::*;
use super::ast::{DiagnosticView, Repair};
use super::lexer::{Kind, LexStep, TokenView, lex, lex_from, lex_step, lemma_lex_step, lemma_line_end, lemma_region_scan, lemma_word_end};
use super::parser::{
    AttachView, FrameView, Iteration, advance_spec, complete_container_spec, complete_region_frame, iterate_spec,
    last_region, needs_verbatim, push_container_spec, region_text_item, run_spec, set_top, frames_weight,
    lemma_frames_weight_nonneg, lemma_iterate_decreases, lemma_last_region,
};
use super::roundtrip::{lemma_advance_to, lemma_run_step, lemma_set_top_push, runs_to};
use super::ast::{ItemKindView, ItemView, region_source};
use super::lexer::strip_bang;
use super::parser::{end_span, is_negated, root_frame};
use vstd::string::*;
use crate::text::lemma_newlines_bound;

verus! {

/// Two tokens read alike: the same kind, texts and body, on lines `c` apart.
pub open spec fn tok_sim(a: TokenView, b: TokenView, c: int) -> bool {
    &&& a.kind == b.kind
    &&& a.text == b.text
    &&& a.quoted == b.quoted
    &&& a.body == b.body
    &&& a.span.line == b.span.line + c
}

/// A token whose body, read from the token's line on, keeps line numbers within `usize`.
pub open spec fn tok_fit(t: TokenView) -> bool {
    t.span.line + t.body.len() <= usize::MAX
}

pub open spec fn toks_sim(x: Seq<TokenView>, y: Seq<TokenView>, c: int) -> bool {
    &&& x.len() == y.len()
    &&& forall|i: int| 0 <= i < x.len() ==> tok_sim(#[trigger] x[i], y[i], c)
    &&& forall|i: int| 0 <= i < x.len() ==> tok_fit(#[trigger] x[i])
    &&& forall|i: int| 0 <= i < y.len() ==> tok_fit(#[trigger] y[i])
}

proof fn lemma_step_sim(b: Seq<u8>, base1: int, f1: Seq<u8>, l1: int, base2: int, f2: Seq<u8>, l2: int, pos: int)
    requires
        0 <= pos < b.len(),
        0 <= l1,
        0 <= l2,
        l1 + (b.len() - pos) <= usize::MAX,
        l2 + (b.len() - pos) <= usize::MAX,
    ensures
        match (lex_step(b, base1, f1, pos, l1), lex_step(b, base2, f2, pos, l2)) {
            (LexStep::Skip(p1, m1), LexStep::Skip(p2, m2)) => p1 == p2 && pos < p1 <= b.len() && m1 - m2 == l1 - l2
                && l1 <= m1 <= l1 + (p1 - pos) && l2 <= m2 <= l2 + (p1 - pos),
            (LexStep::Tok(t1, p1, m1), LexStep::Tok(t2, p2, m2)) => p1 == p2 && pos < p1 <= b.len() && m1 - m2 == l1 - l2
                && l1 <= m1 <= l1 + (p1 - pos) && l2 <= m2 <= l2 + (p1 - pos)
                && tok_sim(t1, t2, l1 - l2) && tok_fit(t1) && tok_fit(t2),
            (LexStep::Fail(_), LexStep::Fail(_)) => true,
            _ => false,
        },
{
    lemma_lex_step(b, base1, f1, pos, l1);
    lemma_lex_step(b, base2, f2, pos, l2);
    lemma_line_end(b, pos);
    lemma_word_end(b, pos);
    crate::source::lemma_quote_close(b, pos + 1, false);
    super::representable::lemma_find_from(b, 93u8, pos);
    if let Some(opener) = super::representable::find_from(b, 93u8, pos) {
        lemma_region_scan(b, opener + 1, 1);
        if let Some(end) = super::lexer::region_scan(b, opener + 1, 1) {
            lemma_newlines_bound(b, pos, end + 1);
        }
    }
    if let Some(e) = crate::source::spec_quoted_end(b, pos) {
        lemma_newlines_bound(b, pos, e + 1);
    }
    if let Some(k) = super::representable::find_from(b, 93u8, pos) {
        lemma_newlines_bound(b, pos, k + 1);
    }
    lemma_newlines_bound(b, pos, pos + 1);
    lemma_newlines_bound(b, pos, pos + 2);
    lemma_newlines_bound(b, pos, super::lexer::word_end(b, pos));
}

/// Tokenizing the same bytes from another offset, line or file label gives tokens that read
/// alike, or fails alike.
pub proof fn lemma_lex_sim(b: Seq<u8>, base1: int, f1: Seq<u8>, l1: int, base2: int, f2: Seq<u8>, l2: int, pos: int)
    requires
        0 <= pos,
        0 <= l1,
        0 <= l2,
        l1 + (b.len() - pos) <= usize::MAX,
        l2 + (b.len() - pos) <= usize::MAX,
    ensures
        match (lex_from(b, base1, f1, pos, l1), lex_from(b, base2, f2, pos, l2)) {
            (Ok(x), Ok(y)) => toks_sim(x, y, l1 - l2),
            (Err(_), Err(_)) => true,
            _ => false,
        },
    decreases b.len() - pos,
{
    if pos < b.len() {
        lemma_step_sim(b, base1, f1, l1, base2, f2, l2, pos);
        match (lex_step(b, base1, f1, pos, l1), lex_step(b, base2, f2, pos, l2)) {
            (LexStep::Skip(p, m1), LexStep::Skip(_, m2)) => {
                lemma_lex_sim(b, base1, f1, m1, base2, f2, m2, p);
            },
            (LexStep::Tok(t1, p, m1), LexStep::Tok(t2, _, m2)) => {
                lemma_lex_sim(b, base1, f1, m1, base2, f2, m2, p);
                if let (Ok(x), Ok(y)) = (lex_from(b, base1, f1, p, m1), lex_from(b, base2, f2, p, m2)) {
                    let xx = seq![t1] + x;
                    let yy = seq![t2] + y;
                    assert forall|i: int| 0 <= i < xx.len() implies tok_sim(#[trigger] xx[i], yy[i], l1 - l2) by {
                        if i > 0 {
                            assert(xx[i] == x[i - 1] && yy[i] == y[i - 1]);
                        }
                    }
                    assert forall|i: int| 0 <= i < xx.len() implies tok_fit(#[trigger] xx[i]) by {
                        if i > 0 {
                            assert(xx[i] == x[i - 1]);
                        }
                    }
                    assert forall|i: int| 0 <= i < yy.len() implies tok_fit(#[trigger] yy[i]) by {
                        if i > 0 {
                            assert(yy[i] == y[i - 1]);
                        }
                    }
                }
            },
            _ => {},
        }
    }
}


/// The kinds of repairs, in order.
pub open spec fn kinds(d: Seq<DiagnosticView>) -> Seq<Repair> {
    d.map_values(|x: DiagnosticView| x.kind)
}

pub open spec fn attach_sim(a: AttachView, b: AttachView, c: int) -> bool {
    match (a, b) {
        (AttachView::Container { entry: e1, header: h1, .. }, AttachView::Container { entry: e2, header: h2, .. }) => e1 == e2 && h1 == h2,
        (AttachView::Region(t1), AttachView::Region(t2)) => tok_sim(t1, t2, c) && tok_fit(t1) && tok_fit(t2),
        _ => false,
    }
}

/// Two open bodies that the reader treats alike: tokens that read alike, repairs of the same
/// kinds, the same depth, and the same kind of body. Their items and locations may differ.
pub open spec fn frame_sim(a: FrameView, b: FrameView, c: int) -> bool {
    &&& toks_sim(a.toks, b.toks, c)
    &&& kinds(a.diags) == kinds(b.diags)
    &&& a.depth == b.depth
    &&& attach_sim(a.attach, b.attach, c)
}

pub open spec fn stack_sim(x: Seq<FrameView>, y: Seq<FrameView>, c: int) -> bool {
    &&& x.len() == y.len()
    &&& forall|k: int| 0 <= k < x.len() ==> frame_sim(#[trigger] x[k], y[k], c)
}

proof fn lemma_toks_sim_skip(x: Seq<TokenView>, y: Seq<TokenView>, c: int, k: int)
    requires
        toks_sim(x, y, c),
        0 <= k <= x.len(),
    ensures
        toks_sim(x.skip(k), y.skip(k), c),
{
    let a = x.skip(k);
    let b = y.skip(k);
    assert forall|i: int| 0 <= i < a.len() implies tok_sim(#[trigger] a[i], b[i], c) by {
        assert(a[i] == x[i + k] && b[i] == y[i + k]);
    }
    assert forall|i: int| 0 <= i < a.len() implies tok_fit(#[trigger] a[i]) by {
        assert(a[i] == x[i + k]);
    }
    assert forall|i: int| 0 <= i < b.len() implies tok_fit(#[trigger] b[i]) by {
        assert(b[i] == y[i + k]);
    }
}

proof fn lemma_kinds_push(d: Seq<DiagnosticView>, x: DiagnosticView)
    ensures
        kinds(d.push(x)) == kinds(d).push(x.kind),
{
    assert(kinds(d.push(x)) =~= kinds(d).push(x.kind));
}

proof fn lemma_kinds_append(a: Seq<DiagnosticView>, b: Seq<DiagnosticView>)
    ensures
        kinds(a + b) == kinds(a) + kinds(b),
{
    assert(kinds(a + b) =~= kinds(a) + kinds(b));
}

proof fn lemma_verbatim_kinds(a: Seq<DiagnosticView>, b: Seq<DiagnosticView>)
    requires
        kinds(a) == kinds(b),
    ensures
        needs_verbatim(a) == needs_verbatim(b),
{
    assert(a.len() == kinds(a).len() && b.len() == kinds(b).len());
    if needs_verbatim(a) {
        let i = choose|i: int| 0 <= i < a.len() && #[trigger] a[i].kind != Repair::OperatorLessEntry;
        assert(kinds(a)[i] == a[i].kind && kinds(b)[i] == b[i].kind);
        assert(b[i].kind != Repair::OperatorLessEntry);
    }
    if needs_verbatim(b) {
        let i = choose|i: int| 0 <= i < b.len() && #[trigger] b[i].kind != Repair::OperatorLessEntry;
        assert(kinds(a)[i] == a[i].kind && kinds(b)[i] == b[i].kind);
        assert(a[i].kind != Repair::OperatorLessEntry);
    }
}

proof fn lemma_set_top_sim(x: Seq<FrameView>, y: Seq<FrameView>, a: FrameView, b: FrameView, c: int)
    requires
        stack_sim(x, y, c),
        frame_sim(a, b, c),
    ensures
        stack_sim(set_top(x, a), set_top(y, b), c),
{
    if x.len() > 0 {
        let g = set_top(x, a);
        let h = set_top(y, b);
        assert forall|k: int| 0 <= k < g.len() implies frame_sim(#[trigger] g[k], h[k], c) by {
            if k < x.len() - 1 {
                assert(g[k] == x[k] && h[k] == y[k]);
            }
        }
    }
}

proof fn lemma_push_sim(x: Seq<FrameView>, y: Seq<FrameView>, a: FrameView, b: FrameView, c: int)
    requires
        stack_sim(x, y, c),
        frame_sim(a, b, c),
    ensures
        stack_sim(x.push(a), y.push(b), c),
{
    let g = x.push(a);
    let h = y.push(b);
    assert forall|k: int| 0 <= k < g.len() implies frame_sim(#[trigger] g[k], h[k], c) by {
        if k < x.len() {
            assert(g[k] == x[k] && h[k] == y[k]);
        }
    }
}

proof fn lemma_take_sim(x: Seq<FrameView>, y: Seq<FrameView>, i: int, c: int)
    requires
        stack_sim(x, y, c),
        0 <= i <= x.len(),
    ensures
        stack_sim(x.take(i), y.take(i), c),
{
    let g = x.take(i);
    let h = y.take(i);
    assert forall|k: int| 0 <= k < g.len() implies frame_sim(#[trigger] g[k], h[k], c) by {
        assert(g[k] == x[k] && h[k] == y[k]);
    }
}

proof fn lemma_push_container_sim(x: Seq<FrameView>, y: Seq<FrameView>, f1: Seq<u8>, f2: Seq<u8>, a: AttachView, b: AttachView, c: int)
    requires
        stack_sim(x, y, c),
        x.len() > 0,
        attach_sim(a, b, c),
    ensures
        match (push_container_spec(x, f1, a), push_container_spec(y, f2, b)) {
            (Ok(g), Ok(h)) => stack_sim(g, h, c),
            (Err(e1), Err(e2)) => e1.kind == e2.kind,
            _ => false,
        },
{
    assert(frame_sim(x[x.len() - 1], y[y.len() - 1], c));
    let p = x.last();
    let q = y.last();
    let p1 = FrameView { toks: Seq::empty(), ..p };
    let q1 = FrameView { toks: Seq::empty(), ..q };
    assert(frame_sim(p1, q1, c));
    lemma_set_top_sim(x, y, p1, q1, c);
    let ch1 = FrameView { toks: p.toks, items: Seq::empty(), attach: a, diags: Seq::empty(), depth: p.depth + 1, end: p.end };
    let ch2 = FrameView { toks: q.toks, items: Seq::empty(), attach: b, diags: Seq::empty(), depth: q.depth + 1, end: q.end };
    assert(kinds(Seq::<DiagnosticView>::empty()) =~= Seq::<Repair>::empty());
    assert(frame_sim(ch1, ch2, c));
    lemma_push_sim(set_top(x, p1), set_top(y, q1), ch1, ch2, c);
}

proof fn lemma_complete_container_sim(x: Seq<FrameView>, y: Seq<FrameView>, t1: Option<TokenView>, t2: Option<TokenView>, c: int)
    requires
        stack_sim(x, y, c),
        t1 is None <==> t2 is None,
    ensures
        stack_sim(complete_container_spec(x, t1), complete_container_spec(y, t2), c),
{
    if x.len() >= 2 {
        let ch1 = x.last();
        let ch2 = y.last();
        assert(frame_sim(x[x.len() - 1], y[y.len() - 1], c));
        assert(frame_sim(x[x.len() - 2], y[y.len() - 2], c));
        let r1 = x.drop_last();
        let r2 = y.drop_last();
        lemma_take_sim(x, y, x.len() - 1, c);
        assert(x.take(x.len() - 1) =~= r1 && y.take(y.len() - 1) =~= r2);
        assert(r1.last() == x[x.len() - 2] && r2.last() == y[y.len() - 2]);
        if let (AttachView::Container { span: s1, .. }, AttachView::Container { span: s2, .. }) = (ch1.attach, ch2.attach) {
            let d1 = DiagnosticView { kind: Repair::UnclosedAtEof, span: s1, text: seq![123u8] };
            let d2 = DiagnosticView { kind: Repair::UnclosedAtEof, span: s2, text: seq![123u8] };
            lemma_kinds_push(ch1.diags, d1);
            lemma_kinds_push(ch2.diags, d2);
            let e1 = if t1 is None { ch1.diags.push(d1) } else { ch1.diags };
            let e2 = if t2 is None { ch2.diags.push(d2) } else { ch2.diags };
            lemma_kinds_append(r1.last().diags, e1);
            lemma_kinds_append(r2.last().diags, e2);
            let n1 = complete_container_spec(x, t1).last();
            let n2 = complete_container_spec(y, t2).last();
            assert(frame_sim(n1, n2, c));
            lemma_set_top_sim(r1, r2, n1, n2, c);
        }
    }
}

/// One step of the reader on two stacks that it treats alike: both succeed with stacks it treats
/// alike, or both fail with errors of the same kind.
#[verifier::rlimit(80)]
#[verifier::spinoff_prover]
proof fn lemma_advance_sim(x: Seq<FrameView>, y: Seq<FrameView>, f1: Seq<u8>, f2: Seq<u8>, c: int)
    requires
        stack_sim(x, y, c),
        x.len() > 0,
    ensures
        match (advance_spec(x, f1), advance_spec(y, f2)) {
            (Ok(g), Ok(h)) => stack_sim(g, h, c),
            (Err(e1), Err(e2)) => e1.kind == e2.kind,
            _ => false,
        },
{
    assert(frame_sim(x[x.len() - 1], y[y.len() - 1], c));
    let p = x.last();
    let q = y.last();
    if p.toks.len() == 0 {
        lemma_complete_container_sim(x, y, None, None, c);
    } else {
        let a = p.toks[0];
        let b = q.toks[0];
        assert(tok_sim(p.toks[0], q.toks[0], c) && tok_fit(p.toks[0]) && tok_fit(q.toks[0]));
        let ra = p.toks.drop_first();
        let rb = q.toks.drop_first();
        lemma_toks_sim_skip(p.toks, q.toks, c, 1);
        assert(ra =~= p.toks.skip(1) && rb =~= q.toks.skip(1));
        let p1 = FrameView { toks: ra, ..p };
        let q1 = FrameView { toks: rb, ..q };
        assert(frame_sim(p1, q1, c));
        lemma_set_top_sim(x, y, p1, q1, c);
        let x1 = set_top(x, p1);
        let y1 = set_top(y, q1);
        if p.toks.len() >= 2 {
            assert(tok_sim(p.toks[1], q.toks[1], c));
            assert(ra[0] == p.toks[1] && rb[0] == q.toks[1]);
            lemma_toks_sim_skip(p.toks, q.toks, c, 2);
            assert(ra.drop_first() =~= p.toks.skip(2) && rb.drop_first() =~= q.toks.skip(2));
        }
        if p.toks.len() >= 3 {
            assert(tok_sim(p.toks[2], q.toks[2], c));
            assert(ra[1] == p.toks[2] && rb[1] == q.toks[2]);
            lemma_toks_sim_skip(p.toks, q.toks, c, 3);
            assert(ra.drop_first().drop_first() =~= p.toks.skip(3) && rb.drop_first().drop_first() =~= q.toks.skip(3));
        }
        if p.toks.len() >= 4 {
            assert(tok_sim(p.toks[3], q.toks[3], c));
            lemma_toks_sim_skip(p.toks, q.toks, c, 4);
            assert(ra.drop_first().drop_first().drop_first() =~= p.toks.skip(4));
            assert(rb.drop_first().drop_first().drop_first() =~= q.toks.skip(4));
        }
        if a.kind == Kind::Close && p.attach is Container {
            lemma_complete_container_sim(x1, y1, Some(a), Some(b), c);
        } else if a.kind == Kind::Close {
            let da = DiagnosticView { kind: Repair::StrayClosingBrace, span: a.span, text: a.text };
            let db = DiagnosticView { kind: Repair::StrayClosingBrace, span: b.span, text: b.text };
            lemma_kinds_push(p.diags, da);
            lemma_kinds_push(q.diags, db);
            lemma_set_top_sim(x, y, FrameView { diags: p.diags.push(da), ..p1 }, FrameView { diags: q.diags.push(db), ..q1 }, c);
        } else if a.kind == Kind::Open {
            lemma_push_container_sim(x1, y1, f1, f2,
                AttachView::Container { entry: None, header: None, span: a.span },
                AttachView::Container { entry: None, header: None, span: b.span }, c);
        } else if a.kind == Kind::Region {
            lemma_lex_sim(a.body, a.body_start as int, f1, a.span.line as int, b.body_start as int, f2, b.span.line as int, 0);
            if let (Ok(ta), Ok(tb)) = (lex(a.body, a.body_start as int, f1, a.span.line as int), lex(b.body, b.body_start as int, f2, b.span.line as int)) {
                let ca = FrameView { toks: ta, items: Seq::empty(), attach: AttachView::Region(a), diags: Seq::empty(), depth: p.depth + 1, end: a.span };
                let cb = FrameView { toks: tb, items: Seq::empty(), attach: AttachView::Region(b), diags: Seq::empty(), depth: q.depth + 1, end: b.span };
                assert(kinds(Seq::<DiagnosticView>::empty()) =~= Seq::<Repair>::empty());
                assert(frame_sim(ca, cb, c));
                lemma_push_sim(x1, y1, ca, cb, c);
            } else {
                lemma_set_top_sim(x, y, FrameView { items: p.items.push(region_text_item(a)), ..p1 },
                    FrameView { items: q.items.push(region_text_item(b)), ..q1 }, c);
            }
        } else if a.kind == Kind::Word && ra.len() > 0 && ra[0].kind == Kind::Op {
            if ra.len() >= 2 {
                let va = ra[1];
                let vb = rb[1];
                let r3a = ra.drop_first().drop_first();
                let r3b = rb.drop_first().drop_first();
                let header_a = va.kind == Kind::Word && !va.quoted && r3a.len() > 0 && r3a[0].kind == Kind::Open && r3a[0].span.line == va.span.line;
                let header_b = vb.kind == Kind::Word && !vb.quoted && r3b.len() > 0 && r3b[0].kind == Kind::Open && r3b[0].span.line == vb.span.line;
                if r3a.len() > 0 {
                    assert(r3a[0] == p.toks[3] && r3b[0] == q.toks[3]);
                }
                assert(header_a == header_b);
                if let Some(op) = super::ast::op_of(ra[0].text) {
                    let r4a = if header_a { r3a.drop_first() } else { r3a };
                    let r4b = if header_b { r3b.drop_first() } else { r3b };
                    lemma_set_top_sim(x, y, FrameView { toks: r4a, ..p }, FrameView { toks: r4b, ..q }, c);
                    lemma_push_container_sim(set_top(x, FrameView { toks: r4a, ..p }), set_top(y, FrameView { toks: r4b, ..q }), f1, f2,
                        AttachView::Container { entry: Some((a.text, op)), header: if header_a { Some(va.text) } else { None }, span: a.span },
                        AttachView::Container { entry: Some((b.text, op)), header: if header_b { Some(vb.text) } else { None }, span: b.span }, c);
                    lemma_set_top_sim(x, y, FrameView { toks: r3a, items: p.items.push(super::ast::ItemView { span: None, kind: super::ast::ItemKindView::Scalar(super::parser::token_scalar(va)) }), ..p },
                        FrameView { toks: r3b, items: q.items.push(super::ast::ItemView { span: None, kind: super::ast::ItemKindView::Scalar(super::parser::token_scalar(vb)) }), ..q }, c);
                    assert forall|it1: Seq<super::ast::ItemView>, it2: Seq<super::ast::ItemView>| true implies
                        stack_sim(set_top(x, FrameView { toks: r3a, items: it1, ..p }), set_top(y, FrameView { toks: r3b, items: it2, ..q }), c) by {
                        lemma_set_top_sim(x, y, FrameView { toks: r3a, items: it1, ..p }, FrameView { toks: r3b, items: it2, ..q }, c);
                    }
                }
            }
        } else if a.kind == Kind::Word {
            let da = DiagnosticView { kind: Repair::OperatorLessEntry, span: a.span, text: a.text };
            let db = DiagnosticView { kind: Repair::OperatorLessEntry, span: b.span, text: b.text };
            lemma_kinds_push(p.diags, da);
            lemma_kinds_push(q.diags, db);
            let pa = FrameView { toks: ra.drop_first(), diags: p.diags.push(da), ..p };
            let pb = FrameView { toks: rb.drop_first(), diags: q.diags.push(db), ..q };
            if ra.len() >= 1 {
                assert(frame_sim(pa, pb, c));
                lemma_set_top_sim(x, y, pa, pb, c);
                lemma_push_container_sim(set_top(x, pa), set_top(y, pb), f1, f2,
                    AttachView::Container { entry: Some((a.text, super::ast::Operator::Assign)), header: None, span: a.span },
                    AttachView::Container { entry: Some((b.text, super::ast::Operator::Assign)), header: None, span: b.span }, c);
            }
            assert forall|it1: Seq<super::ast::ItemView>, it2: Seq<super::ast::ItemView>| true implies
                stack_sim(set_top(x, FrameView { items: it1, ..p1 }), set_top(y, FrameView { items: it2, ..q1 }), c) by {
                lemma_set_top_sim(x, y, FrameView { items: it1, ..p1 }, FrameView { items: it2, ..q1 }, c);
            }
        } else {
            assert forall|it1: Seq<super::ast::ItemView>, it2: Seq<super::ast::ItemView>| true implies
                stack_sim(set_top(x, FrameView { items: it1, ..p1 }), set_top(y, FrameView { items: it2, ..q1 }), c) by {
                lemma_set_top_sim(x, y, FrameView { items: it1, ..p1 }, FrameView { items: it2, ..q1 }, c);
            }
        }
    }
}

/// Stack operations on the top of `z` leave the frames `s` below it alone.
proof fn lemma_lift(s: Seq<FrameView>, z: Seq<FrameView>)
    requires
        z.len() > 0,
    ensures
        (s + z).last() == z.last(),
        forall|v: FrameView| #[trigger] set_top(s + z, v) == s + set_top(z, v),
        forall|v: FrameView| #[trigger] (s + z).push(v) == s + z.push(v),
        forall|f: Seq<u8>, a: AttachView| #[trigger] push_container_spec(s + z, f, a) == match push_container_spec(z, f, a) {
            Ok(g) => Ok(s + g),
            Err(e) => Err(e),
        },
        forall|t: Option<TokenView>| z.len() >= 2 ==> #[trigger] complete_container_spec(s + z, t) == s + complete_container_spec(z, t),
{
    assert forall|v: FrameView| #[trigger] set_top(s + z, v) == s + set_top(z, v) by {
        assert(set_top(s + z, v) =~= s + set_top(z, v));
    }
    assert forall|v: FrameView| #[trigger] (s + z).push(v) == s + z.push(v) by {
        assert((s + z).push(v) =~= s + z.push(v));
    }
    assert forall|f: Seq<u8>, a: AttachView| #[trigger] push_container_spec(s + z, f, a) == match push_container_spec(z, f, a) {
        Ok(g) => Ok(s + g),
        Err(e) => Err(e),
    } by {
        let p = z.last();
        assert(set_top(s + z, FrameView { toks: Seq::empty(), ..p }) =~= s + set_top(z, FrameView { toks: Seq::empty(), ..p }));
        let w = set_top(z, FrameView { toks: Seq::empty(), ..p });
        let ch = FrameView { toks: p.toks, items: Seq::empty(), attach: a, diags: Seq::empty(), depth: p.depth + 1, end: p.end };
        assert((s + w).push(ch) =~= s + w.push(ch));
    }
    assert forall|t: Option<TokenView>| z.len() >= 2 implies #[trigger] complete_container_spec(s + z, t) == s + complete_container_spec(z, t) by {
        let r = z.drop_last();
        assert((s + z).drop_last() =~= s + r);
        assert((s + r).last() == r.last());
        assert((s + z).len() >= 2);
        if let AttachView::Container { .. } = z.last().attach {
            let x = complete_container_spec(z, t).last();
            assert(set_top(s + r, x) =~= s + set_top(r, x));
            assert(complete_container_spec(z, t) == set_top(r, x));
            assert(complete_container_spec(s + z, t) == set_top(s + r, x));
        }
    }
}

/// One step of the reader on a stack whose lower part `s` lies below a conditional region's body
/// acts on the upper part alone.
#[verifier::rlimit(80)]
#[verifier::spinoff_prover]
proof fn lemma_advance_lift(s: Seq<FrameView>, x: Seq<FrameView>, f: Seq<u8>)
    requires
        x.len() > 0,
        x[0].attach is Region,
    ensures
        advance_spec(s + x, f) == match advance_spec(x, f) {
            Ok(g) => Ok(s + g),
            Err(e) => Err(e),
        },
        advance_spec(x, f) matches Ok(g) ==> g.len() > 0 && g[0].attach == x[0].attach,
{
    let p = x.last();
    lemma_lift(s, x);
    if p.toks.len() > 0 {
        let ra = p.toks.drop_first();
        let r2 = ra.drop_first();
        let r3 = r2.drop_first();
        let r4 = r3.drop_first();
        lemma_lift(s, set_top(x, FrameView { toks: ra, ..p }));
        lemma_lift(s, set_top(x, FrameView { toks: r3, ..p }));
        lemma_lift(s, set_top(x, FrameView { toks: r4, ..p }));
        lemma_lift(s, set_top(x, FrameView { toks: r2, diags: p.diags.push(DiagnosticView { kind: Repair::OperatorLessEntry, span: p.toks[0].span, text: p.toks[0].text }), ..p }));
    }
}

proof fn lemma_last_region_lift(s: Seq<FrameView>, x: Seq<FrameView>, m: int)
    requires
        1 <= m <= x.len(),
        x[0].attach is Region,
    ensures
        last_region(x, m) is Some,
        last_region(s + x, s.len() + m) == Some(s.len() + last_region(x, m)->Some_0),
    decreases m,
{
    assert((s + x)[s.len() + m - 1] == x[m - 1]);
    if !(x[m - 1].attach is Region) {
        lemma_last_region_lift(s, x, m - 1);
    }
}

proof fn lemma_last_region_sim(x: Seq<FrameView>, y: Seq<FrameView>, c: int, m: int)
    requires
        stack_sim(x, y, c),
        0 <= m <= x.len(),
    ensures
        last_region(x, m) == last_region(y, m),
    decreases m,
{
    if m > 0 {
        assert(frame_sim(x[m - 1], y[m - 1], c));
        lemma_last_region_sim(x, y, c, m - 1);
    }
}

proof fn lemma_region_frame_sim(p: FrameView, q: FrameView, t1: TokenView, t2: TokenView, x: FrameView, y: FrameView, c: int)
    requires
        frame_sim(p, q, c),
        kinds(x.diags) == kinds(y.diags),
    ensures
        frame_sim(complete_region_frame(p, t1, x.items, x.diags), complete_region_frame(q, t2, y.items, y.diags), c),
        needs_verbatim(x.diags) == needs_verbatim(y.diags),
{
    lemma_verbatim_kinds(x.diags, y.diags);
    lemma_kinds_append(p.diags, x.diags);
    lemma_kinds_append(q.diags, y.diags);
}

/// A root with nothing left to read finishes with its items and repairs.
proof fn lemma_root_done(r: FrameView, f: Seq<u8>)
    requires
        r.toks.len() == 0,
        r.attach is Root,
    ensures
        run_spec(seq![r], f) == Ok::<(Seq<super::ast::ItemView>, Seq<DiagnosticView>), crate::source::ErrorView>((r.items, r.diags)),
{
    reveal(iterate_spec);
    assert(advance_spec(seq![r], f) == Ok::<Seq<FrameView>, crate::source::ErrorView>(seq![r]));
    lemma_run_step(seq![r], f);
}

/// Reading a conditional region's body on top of any frames `s` ends as reading it alone does:
/// where the region read alone at the same depth falls back to its verbatim text, so does the
/// region above `s`, which then holds the region's text as its next item.
#[verifier::rlimit(100)]
#[verifier::spinoff_prover]
proof fn lemma_region_anywhere(s: Seq<FrameView>, x: Seq<FrameView>, r0: FrameView, y: Seq<FrameView>, f1: Seq<u8>, f2: Seq<u8>, c: int)
    requires
        s.len() > 0,
        stack_sim(x, y, c),
        x.len() > 0,
        x[0].attach is Region,
        r0.toks.len() == 0,
        r0.attach is Root,
        run_spec(seq![r0] + y, f2) matches Ok((items, _)) && items.len() > 0 && items.last().kind is ParamText,
    ensures
        run_spec(s + x, f1) == run_spec(set_top(s, FrameView {
            items: s.last().items.push(region_text_item(x[0].attach->Region_0)),
            ..s.last()
        }), f1),
    decreases frames_weight(seq![r0] + y), y.len(),
{
    let a = s + x;
    let b = seq![r0] + y;
    assert(frame_sim(x[0], y[0], c));
    lemma_advance_lift(s, x, f1);
    lemma_advance_lift(seq![r0], y, f2);
    lemma_advance_sim(x, y, f1, f2, c);
    lemma_run_step(a, f1);
    lemma_run_step(b, f2);
    lemma_iterate_decreases(b, f2);
    lemma_frames_weight_nonneg(b);
    lemma_lift(s, x);
    lemma_lift(seq![r0], y);
    let target = set_top(s, FrameView { items: s.last().items.push(region_text_item(x[0].attach->Region_0)), ..s.last() });
    reveal(iterate_spec);
    match advance_spec(x, f1) {
        Err(e1) => {
            lemma_last_region_lift(s, x, x.len() as int);
            lemma_last_region_lift(seq![r0], y, y.len() as int);
            lemma_last_region_sim(x, y, c, x.len() as int);
            lemma_last_region(x, x.len() as int);
            let j = last_region(x, x.len() as int)->Some_0;
            if j == 0 {
                assert(a.take(s.len() as int) =~= s);
                assert(a[s.len() as int] == x[0]);
            } else {
                let xj = x.take(j);
                let yj = y.take(j);
                assert(a.take(s.len() + j) =~= s + xj);
                assert(b.take(1 + j) =~= seq![r0] + yj);
                assert(a[s.len() + j] == x[j] && b[1 + j] == y[j]);
                lemma_take_sim(x, y, j, c);
                assert(frame_sim(xj[j - 1], yj[j - 1], c));
                let nx = FrameView { items: xj.last().items.push(region_text_item(x[j].attach->Region_0)), ..xj.last() };
                let ny = FrameView { items: yj.last().items.push(region_text_item(y[j].attach->Region_0)), ..yj.last() };
                lemma_set_top_sim(xj, yj, nx, ny, c);
                lemma_lift(s, xj);
                lemma_lift(seq![r0], yj);
                assert((s + xj).last() == xj.last());
                let x2 = set_top(xj, nx);
                let y2 = set_top(yj, ny);
                assert(x2[0].attach == x[0].attach);
                lemma_region_anywhere(s, x2, r0, y2, f1, f2, c);
            }
        },
        Ok(g) => {
            let h = advance_spec(y, f2)->Ok_0;
            lemma_lift(s, g);
            lemma_lift(seq![r0], h);
            assert(frame_sim(g[g.len() - 1], h[h.len() - 1], c));
            if g.last().toks.len() > 0 || g.last().attach is Container {
                lemma_region_anywhere(s, g, r0, h, f1, f2, c);
            } else {
                let t1 = g.last().attach->Region_0;
                let t2 = h.last().attach->Region_0;
                if g.len() >= 2 {
                    let gd = g.drop_last();
                    let hd = h.drop_last();
                    assert((s + g).drop_last() =~= s + gd);
                    assert((seq![r0] + h).drop_last() =~= seq![r0] + hd);
                    lemma_take_sim(g, h, g.len() - 1, c);
                    assert(g.take(g.len() - 1) =~= gd && h.take(h.len() - 1) =~= hd);
                    assert(frame_sim(gd[gd.len() - 1], hd[hd.len() - 1], c));
                    lemma_lift(s, gd);
                    lemma_lift(seq![r0], hd);
                    lemma_region_frame_sim(gd.last(), hd.last(), t1, t2, g.last(), h.last(), c);
                    let nx = complete_region_frame(gd.last(), t1, g.last().items, g.last().diags);
                    let ny = complete_region_frame(hd.last(), t2, h.last().items, h.last().diags);
                    lemma_set_top_sim(gd, hd, nx, ny, c);
                    let x2 = set_top(gd, nx);
                    let y2 = set_top(hd, ny);
                    assert(x2[0].attach == x[0].attach);
                    lemma_region_anywhere(s, x2, r0, y2, f1, f2, c);
                } else {
                    assert((s + g).drop_last() =~= s);
                    assert((seq![r0] + h).drop_last() =~= seq![r0]);
                    lemma_verbatim_kinds(g.last().diags, h.last().diags);
                    let r1 = complete_region_frame(r0, t2, h.last().items, h.last().diags);
                    assert(set_top(seq![r0], r1) =~= seq![r1]);
                    lemma_root_done(r1, f2);
                }
            }
        },
    }
}

/// A verbatim region whose source, which fits in memory, reads alone as one region token with the
/// region's name, negation and body.
pub open spec fn region_lexes(name: Seq<u8>, negated: bool, text: Seq<u8>) -> bool {
    let src = region_source(name, negated, text);
    &&& src.len() < usize::MAX
    &&& match lex(src, 0, "<region>".spec_bytes(), 1) {
        Ok(toks) => {
            &&& toks.len() == 1
            &&& toks[0].kind == Kind::Region && !toks[0].quoted && toks[0].body == text
            &&& strip_bang(toks[0].text) == name && is_negated(toks[0]) == negated
        },
        Err(_) => false,
    }
}

/// A verbatim region read on its own at depth `k`: its source reads as one region token with its
/// name, negation and body, and reading that token in a body at depth `k` gives back the region's
/// text, alone and without repairs.
pub open spec fn region_reads_at(name: Seq<u8>, negated: bool, text: Seq<u8>, k: int) -> bool {
    let src = region_source(name, negated, text);
    let rf = "<region>".spec_bytes();
    &&& region_lexes(name, negated, text)
    &&& match lex(src, 0, rf, 1) {
        Ok(toks) => match run_spec(seq![FrameView { depth: k, ..root_frame(toks, end_span(src)) }], rf) {
            Ok((items, diags)) => diags.len() == 0 && items.len() == 1
                && items[0].kind == (ItemKindView::ParamText { name, negated, text }),
            Err(_) => false,
        },
        Err(_) => false,
    }
}

proof fn lemma_same_name(a: TokenView, b: TokenView)
    requires
        strip_bang(a.text) == strip_bang(b.text),
        is_negated(a) == is_negated(b),
    ensures
        a.text == b.text,
{
    if is_negated(a) {
        assert(a.text =~= seq![33u8] + strip_bang(a.text));
        assert(b.text =~= seq![33u8] + strip_bang(b.text));
    }
}

/// Reading, from the top of a body at depth `k`, a region token with the name, negation and body
/// of a region that reads back alone at depth `k` gives that region's text as the body's next item.
#[verifier::rlimit(60)]
pub(crate) proof fn lemma_text_run(p: Seq<FrameView>, f: FrameView, tc: TokenView, rest: Seq<TokenView>, file: Seq<u8>, name: Seq<u8>, negated: bool, text: Seq<u8>)
    requires
        f.toks == seq![tc] + rest,
        tc.kind == Kind::Region && !tc.quoted && tc.body == text,
        strip_bang(tc.text) == name && is_negated(tc) == negated,
        tok_fit(tc),
        region_reads_at(name, negated, text, f.depth),
        rest.len() == 0 ==> !(f.attach is Container),
    ensures
        runs_to(p, f, FrameView { toks: rest, items: f.items.push(region_text_item(tc)), ..f }, file),
{
    reveal(iterate_spec);
    let rf = "<region>".spec_bytes();
    let src = region_source(name, negated, text);
    let toks = lex(src, 0, rf, 1)->Ok_0;
    let t0 = toks[0];
    let root = FrameView { depth: f.depth, ..root_frame(toks, end_span(src)) };
    lemma_lex_sim(src, 0, rf, 1, 0, rf, 1, 0);
    assert(tok_fit(toks[0]));
    lemma_same_name(tc, t0);
    let c = tc.span.line - t0.span.line;
    assert(tok_sim(tc, t0, c));
    lemma_lex_sim(text, tc.body_start as int, file, tc.span.line as int, t0.body_start as int, rf, t0.span.line as int, 0);
    let frames = p.push(f);
    lemma_set_top_push(p, f, f);
    let fr = FrameView { toks: rest, ..f };
    lemma_set_top_push(p, f, fr);
    assert(f.toks.drop_first() =~= rest);
    let r0 = FrameView { toks: Seq::empty(), ..root };
    assert(seq![root].drop_first() =~= Seq::<FrameView>::empty());
    assert(root.toks.drop_first() =~= Seq::<TokenView>::empty());
    assert(set_top(seq![root], r0) =~= seq![r0]);
    lemma_run_step(seq![root], rf);
    lemma_run_step(frames, file);
    let g = FrameView { toks: rest, items: f.items.push(region_text_item(tc)), ..f };
    if f.depth + 1 > crate::MAX_NESTING_DEPTH {
        assert(false);
    } else {
        match (lex(text, tc.body_start as int, file, tc.span.line as int), lex(text, t0.body_start as int, rf, t0.span.line as int)) {
            (Ok(xt), Ok(yt)) => {
                let rx = FrameView { toks: xt, items: Seq::empty(), attach: AttachView::Region(tc), diags: Seq::empty(), depth: f.depth + 1, end: tc.span };
                let ry = FrameView { toks: yt, items: Seq::empty(), attach: AttachView::Region(t0), diags: Seq::empty(), depth: f.depth + 1, end: t0.span };
                let s = p.push(fr);
                assert(s.push(rx) =~= s + seq![rx]);
                assert(seq![r0].push(ry) =~= seq![r0] + seq![ry]);
                assert(kinds(Seq::<DiagnosticView>::empty()) =~= Seq::<Repair>::empty());
                assert(frame_sim(rx, ry, c));
                assert(stack_sim(seq![rx], seq![ry], c));
                assert(advance_spec(seq![root], rf) == Ok::<Seq<FrameView>, crate::source::ErrorView>(seq![r0].push(ry)));
                assert(advance_spec(frames, file) == Ok::<Seq<FrameView>, crate::source::ErrorView>(s.push(rx)));
                lemma_run_step(seq![r0].push(ry), rf);
                lemma_run_step(s.push(rx), file);
                lemma_region_anywhere(s, seq![rx], r0, seq![ry], file, rf, c);
                lemma_set_top_push(p, fr, g);
                assert(s.last() == fr);
            },
            _ => {
                lemma_set_top_push(p, f, g);
                assert(advance_spec(frames, file) == Ok::<Seq<FrameView>, crate::source::ErrorView>(p.push(g)));
                lemma_advance_to(frames, p, g, file);
            },
        }
    }
}

/// An item a region token can leave behind: if verbatim text, the token's own name and body.
pub open spec fn from_region(x: ItemView, t: TokenView) -> bool {
    x.kind is ParamText ==> x.kind == (ItemKindView::ParamText { name: strip_bang(t.text), negated: is_negated(t), text: t.body })
}

/// `g` keeps what `w` has at its lowest body: its kind and first item, and no second root.
pub open spec fn keeps_root(w: Seq<FrameView>, g: Seq<FrameView>) -> bool {
    &&& g.len() > 0
    &&& g[0].attach == w[0].attach
    &&& w[0].items.len() > 0 ==> (g[0].items.len() > 0 && g[0].items[0] == w[0].items[0])
    &&& (forall|k: int| 1 <= k < w.len() ==> !(#[trigger] w[k].attach is Root))
        ==> (forall|k: int| 1 <= k < g.len() ==> !(#[trigger] g[k].attach is Root))
}

proof fn lemma_keeps_trans(a: Seq<FrameView>, b: Seq<FrameView>, c: Seq<FrameView>)
    requires
        a.len() > 0,
        keeps_root(a, b),
        keeps_root(b, c),
    ensures
        keeps_root(a, c),
{
}

proof fn lemma_set_top_root(w: Seq<FrameView>, v: FrameView)
    requires
        w.len() > 0,
        v.attach == w.last().attach,
        w.len() == 1 && w[0].items.len() > 0 ==> (v.items.len() > 0 && v.items[0] == w[0].items[0]),
    ensures
        keeps_root(w, set_top(w, v)),
{
    let g = set_top(w, v);
    assert forall|k: int| 1 <= k < g.len() && (forall|k: int| 1 <= k < w.len() ==> !(#[trigger] w[k].attach is Root))
        implies !(#[trigger] g[k].attach is Root) by {
        assert(g[k].attach == w[k].attach);
    }
}

proof fn lemma_push_root(w: Seq<FrameView>, v: FrameView)
    requires
        w.len() > 0,
        !(v.attach is Root),
    ensures
        keeps_root(w, w.push(v)),
{
    let g = w.push(v);
    assert forall|k: int| 1 <= k < g.len() && (forall|k: int| 1 <= k < w.len() ==> !(#[trigger] w[k].attach is Root))
        implies !(#[trigger] g[k].attach is Root) by {
        if k < w.len() {
            assert(g[k] == w[k]);
        }
    }
}

proof fn lemma_push_container_root(w: Seq<FrameView>, f: Seq<u8>, a: AttachView)
    requires
        w.len() > 0,
        a is Container,
    ensures
        push_container_spec(w, f, a) matches Ok(g) ==> keeps_root(w, g),
{
    let p = w.last();
    let w1 = set_top(w, FrameView { toks: Seq::empty(), ..p });
    lemma_set_top_root(w, FrameView { toks: Seq::empty(), ..p });
    let ch = FrameView { toks: p.toks, items: Seq::empty(), attach: a, diags: Seq::empty(), depth: p.depth + 1, end: p.end };
    lemma_push_root(w1, ch);
    lemma_keeps_trans(w, w1, w1.push(ch));
}

proof fn lemma_complete_root(w: Seq<FrameView>, t: Option<TokenView>)
    requires
        w.len() >= 2,
    ensures
        keeps_root(w, complete_container_spec(w, t)),
{
    let r = w.drop_last();
    assert(r[0] == w[0]);
    assert forall|k: int| 1 <= k < r.len() implies r[k] == w[k] by {}
    if let AttachView::Container { .. } = w.last().attach {
        let x = complete_container_spec(w, t).last();
        assert(x.attach == r.last().attach);
        lemma_set_top_root(r, x);
    } else {
        assert forall|k: int| 1 <= k < w.len() && (forall|k: int| 1 <= k < w.len() ==> !(#[trigger] w[k].attach is Root))
            implies !(#[trigger] w[k].attach is Root) by {}
    }
}

/// A step keeps the kind of the lowest body and its first item, and opens no second root.
#[verifier::rlimit(80)]
#[verifier::spinoff_prover]
pub(crate) proof fn lemma_advance_root(frames: Seq<FrameView>, f: Seq<u8>)
    requires
        frames.len() > 0,
        !(frames[0].attach is Container),
    ensures
        advance_spec(frames, f) matches Ok(g) ==> keeps_root(frames, g),
{
    let p = frames.last();
    if p.toks.len() == 0 {
        if p.attach is Container {
            lemma_complete_root(frames, None);
        } else {
            lemma_set_top_root(frames, p);
            assert(set_top(frames, p) =~= frames);
        }
    } else {
        let a = p.toks[0];
        let ra = p.toks.drop_first();
        let p1 = FrameView { toks: ra, ..p };
        let x1 = set_top(frames, p1);
        lemma_set_top_root(frames, p1);
        if a.kind == Kind::Close && p.attach is Container {
            lemma_complete_root(x1, Some(a));
            lemma_keeps_trans(frames, x1, complete_container_spec(x1, Some(a)));
        } else if a.kind == Kind::Close {
            let v = FrameView { diags: p.diags.push(DiagnosticView { kind: Repair::StrayClosingBrace, span: a.span, text: a.text }), ..p1 };
            lemma_set_top_root(frames, v);
        } else if a.kind == Kind::Open {
            lemma_push_container_root(x1, f, AttachView::Container { entry: None, header: None, span: a.span });
            if let Ok(g) = advance_spec(frames, f) {
                lemma_keeps_trans(frames, x1, g);
            }
        } else if a.kind == Kind::Region {
            let ch = FrameView { toks: Seq::empty(), items: Seq::empty(), attach: AttachView::Region(a), diags: Seq::empty(), depth: p.depth + 1, end: a.span };
            assert forall|ts: Seq<TokenView>| true implies #[trigger] keeps_root(frames, x1.push(FrameView { toks: ts, ..ch })) by {
                lemma_push_root(x1, FrameView { toks: ts, ..ch });
                lemma_keeps_trans(frames, x1, x1.push(FrameView { toks: ts, ..ch }));
            }
            lemma_set_top_root(frames, FrameView { items: p.items.push(region_text_item(a)), ..p1 });
        } else if a.kind == Kind::Word && ra.len() > 0 && ra[0].kind == Kind::Op {
            assert forall|r4: Seq<TokenView>, at: AttachView| at is Container implies
                (#[trigger] push_container_spec(set_top(frames, FrameView { toks: r4, ..p }), f, at)) matches Ok(g) ==> keeps_root(frames, g) by {
                lemma_set_top_root(frames, FrameView { toks: r4, ..p });
                lemma_push_container_root(set_top(frames, FrameView { toks: r4, ..p }), f, at);
                if let Ok(g) = push_container_spec(set_top(frames, FrameView { toks: r4, ..p }), f, at) {
                    lemma_keeps_trans(frames, set_top(frames, FrameView { toks: r4, ..p }), g);
                }
            }
            assert forall|r3: Seq<TokenView>, it: ItemView| true implies
                #[trigger] keeps_root(frames, set_top(frames, FrameView { toks: r3, items: p.items.push(it), ..p })) by {
                lemma_set_top_root(frames, FrameView { toks: r3, items: p.items.push(it), ..p });
            }
        } else if a.kind == Kind::Word {
            let v = FrameView { toks: ra.drop_first(), diags: p.diags.push(DiagnosticView { kind: Repair::OperatorLessEntry, span: a.span, text: a.text }), ..p };
            lemma_set_top_root(frames, v);
            lemma_push_container_root(set_top(frames, v), f, AttachView::Container { entry: Some((a.text, super::ast::Operator::Assign)), header: None, span: a.span });
            if let Ok(g) = push_container_spec(set_top(frames, v), f, AttachView::Container { entry: Some((a.text, super::ast::Operator::Assign)), header: None, span: a.span }) {
                lemma_keeps_trans(frames, set_top(frames, v), g);
            }
            assert forall|it: ItemView| true implies #[trigger] keeps_root(frames, set_top(frames, FrameView { items: p.items.push(it), ..p1 })) by {
                lemma_set_top_root(frames, FrameView { items: p.items.push(it), ..p1 });
            }
        } else {
            assert forall|it: ItemView| true implies #[trigger] keeps_root(frames, set_top(frames, FrameView { items: p.items.push(it), ..p1 })) by {
                lemma_set_top_root(frames, FrameView { items: p.items.push(it), ..p1 });
            }
        }
    }
}

/// Once the lowest body, a root, holds a first item, reading keeps it first.
#[verifier::rlimit(60)]
proof fn lemma_post_run(frames: Seq<FrameView>, f: Seq<u8>)
    requires
        frames.len() > 0,
        frames[0].attach is Root,
        frames[0].items.len() > 0,
        forall|k: int| 1 <= k < frames.len() ==> !(#[trigger] frames[k].attach is Root),
    ensures
        run_spec(frames, f) matches Ok((items, _)) ==> items.len() > 0 && items[0] == frames[0].items[0],
    decreases frames_weight(frames), frames.len(),
{
    reveal(iterate_spec);
    lemma_run_step(frames, f);
    lemma_iterate_decreases(frames, f);
    lemma_frames_weight_nonneg(frames);
    lemma_advance_root(frames, f);
    match advance_spec(frames, f) {
        Err(e) => {
            lemma_last_region(frames, frames.len() as int);
            if e.kind == crate::source::ErrorKind::NestingLimit {
            } else if let Some(j) = last_region(frames, frames.len() as int) {
                let kept = frames.take(j);
                let x = FrameView { items: kept.last().items.push(region_text_item(frames[j].attach->Region_0)), ..kept.last() };
                let g = set_top(kept, x);
                assert(j >= 1);
                assert(g[0] == if j == 1 { x } else { frames[0] });
                assert forall|k: int| 1 <= k < g.len() implies !(#[trigger] g[k].attach is Root) by {
                    assert(g[k].attach == frames[k].attach);
                }
                lemma_post_run(g, f);
            }
        },
        Ok(g) => {
            if g.last().toks.len() > 0 || g.last().attach is Container {
                lemma_post_run(g, f);
            } else if let AttachView::Region(t) = g.last().attach {
                let gd = g.drop_last();
                assert(g.len() >= 2);
                let x = complete_region_frame(gd.last(), t, g.last().items, g.last().diags);
                let h = set_top(gd, x);
                assert(gd[0] == g[0]);
                assert(h[0] == if gd.len() == 1 { x } else { g[0] });
                assert forall|k: int| 1 <= k < h.len() implies !(#[trigger] h[k].attach is Root) by {
                    assert(h[k].attach == g[k].attach);
                }
                lemma_post_run(h, f);
            } else {
                assert(g.len() == 1);
            }
        },
    }
}

/// While a region token's body is read above a root with no items, the root's first item, once
/// it comes, is one that the token leaves behind.
#[verifier::rlimit(80)]
#[verifier::spinoff_prover]
proof fn lemma_mid_run(r0: FrameView, x: Seq<FrameView>, f: Seq<u8>)
    requires
        x.len() > 0,
        x[0].attach is Region,
        forall|k: int| 0 <= k < x.len() ==> !(#[trigger] x[k].attach is Root),
        r0.attach is Root,
        r0.items.len() == 0,
    ensures
        run_spec(seq![r0] + x, f) matches Ok((items, _)) ==> items.len() > 0 && from_region(items[0], x[0].attach->Region_0),
    decreases frames_weight(seq![r0] + x), x.len(),
{
    let a = seq![r0] + x;
    let tc = x[0].attach->Region_0;
    reveal(iterate_spec);
    lemma_run_step(a, f);
    lemma_iterate_decreases(a, f);
    lemma_frames_weight_nonneg(a);
    lemma_advance_lift(seq![r0], x, f);
    lemma_advance_root(x, f);
    lemma_lift(seq![r0], x);
    match advance_spec(x, f) {
        Err(e) => {
            lemma_last_region_lift(seq![r0], x, x.len() as int);
            lemma_last_region(x, x.len() as int);
            let j = last_region(x, x.len() as int)->Some_0;
            if e.kind == crate::source::ErrorKind::NestingLimit {
            } else if j == 0 {
                assert(a.take(1) =~= seq![r0]);
                assert(a[1] == x[0]);
                let r1 = FrameView { items: r0.items.push(region_text_item(tc)), ..r0 };
                assert(set_top(seq![r0], r1) =~= seq![r1]);
                lemma_post_run(seq![r1], f);
            } else {
                let xj = x.take(j);
                assert(a.take(1 + j) =~= seq![r0] + xj);
                assert(a[1 + j] == x[j]);
                let nx = FrameView { items: xj.last().items.push(region_text_item(x[j].attach->Region_0)), ..xj.last() };
                lemma_lift(seq![r0], xj);
                let x2 = set_top(xj, nx);
                assert(x2[0].attach == x[0].attach);
                assert forall|k: int| 0 <= k < x2.len() implies !(#[trigger] x2[k].attach is Root) by {
                    assert(x2[k].attach == x[k].attach);
                }
                lemma_mid_run(r0, x2, f);
            }
        },
        Ok(g) => {
            lemma_lift(seq![r0], g);
            assert forall|k: int| 0 <= k < g.len() implies !(#[trigger] g[k].attach is Root) by {
                if k == 0 {
                    assert(g[0].attach == x[0].attach);
                }
            }
            assert(!(g[g.len() - 1].attach is Root));
            if g.last().toks.len() > 0 || g.last().attach is Container {
                lemma_mid_run(r0, g, f);
            } else {
                let t1 = g.last().attach->Region_0;
                if g.len() >= 2 {
                    let gd = g.drop_last();
                    assert((seq![r0] + g).drop_last() =~= seq![r0] + gd);
                    lemma_lift(seq![r0], gd);
                    let nx = complete_region_frame(gd.last(), t1, g.last().items, g.last().diags);
                    let x2 = set_top(gd, nx);
                    assert(x2[0].attach == x[0].attach);
                    assert forall|k: int| 0 <= k < x2.len() implies !(#[trigger] x2[k].attach is Root) by {
                        assert(x2[k].attach == g[k].attach);
                    }
                    lemma_mid_run(r0, x2, f);
                } else {
                    assert((seq![r0] + g).drop_last() =~= seq![r0]);
                    assert(t1 == tc);
                    let r1 = complete_region_frame(r0, t1, g.last().items, g.last().diags);
                    assert(set_top(seq![r0], r1) =~= seq![r1]);
                    lemma_post_run(seq![r1], f);
                }
            }
        },
    }
}

proof fn lemma_problem_parse(name: Seq<u8>, negated: bool, text: Seq<u8>)
    requires
        super::ast::region_problem(name, negated, text) is None,
    ensures
        super::parser::spec_parse(region_source(name, negated, text), "<region>".spec_bytes()) matches Ok(doc)
            && doc.diagnostics.len() == 0 && doc.items.len() == 1
            && doc.items[0].kind == (ItemKindView::ParamText { name, negated, text }),
{
}

/// The first token of a region's source, when its source reads at all.
#[verifier::rlimit(60)]
#[verifier::spinoff_prover]
proof fn lemma_source_first(name: Seq<u8>, negated: bool, text: Seq<u8>) -> (r: (TokenView, Seq<TokenView>, int, int))
    requires
        lex(region_source(name, negated, text), 0, "<region>".spec_bytes(), 1) is Ok,
    ensures
        ({
            let rs = region_source(name, negated, text);
            let (t, more, o, e) = r;
            &&& lex(rs, 0, "<region>".spec_bytes(), 1) == Ok::<Seq<TokenView>, crate::source::ErrorView>(seq![t] + more)
            &&& t.kind == Kind::Region && !t.quoted
            &&& 2 <= o < e < rs.len()
            &&& t.text == rs.subrange(2, o) && t.body == rs.subrange(o + 1, e)
            &&& (e == rs.len() - 1 ==> more.len() == 0)
        }),
{
    let rs = region_source(name, negated, text);
    let rf = "<region>".spec_bytes();
    assert(rs[0] == 91u8 && rs[1] == 91u8);
    assert(!super::lexer::is_space(rs[0]) && super::lexer::region_open_at(rs, 0) && !super::lexer::math_open_at(rs, 0));
    lemma_lex_step(rs, 0, rf, 0, 1);
    super::representable::lemma_find_from(rs, 93u8, 0);
    let o = super::representable::find_from(rs, 93u8, 0)->Some_0;
    lemma_region_scan(rs, o + 1, 1);
    let e = super::lexer::region_scan(rs, o + 1, 1)->Some_0;
    let (t, q, l) = match lex_step(rs, 0, rf, 0, 1) {
        LexStep::Tok(t, q, l) => (t, q, l),
        _ => arbitrary(),
    };
    let more = lex_from(rs, 0, rf, q, l)->Ok_0;
    assert(q == e + 1);
    (t, more, o, e)
}

/// A verbatim region that the checked constructor accepts, and whose source fits in memory, reads
/// alone as one region token with its name, negation and body, and reads back at the top level.
#[verifier::rlimit(100)]
#[verifier::spinoff_prover]
pub proof fn lemma_problem_free_reads(name: Seq<u8>, negated: bool, text: Seq<u8>)
    requires
        super::ast::region_problem(name, negated, text) is None,
        region_source(name, negated, text).len() < usize::MAX,
    ensures
        region_lexes(name, negated, text),
        region_reads_at(name, negated, text, 0),
{
    let rs = region_source(name, negated, text);
    let rf = "<region>".spec_bytes();
    let g = if negated { seq![33u8] } else { Seq::<u8>::empty() };
    lemma_problem_parse(name, negated, text);
    reveal(super::parser::spec_parse);
    assert(rs[0] == 91u8);
    assert(super::parser::source_text(rs) == (rs, 0int));
    let toks = lex(rs, 0, rf, 1)->Ok_0;
    let (t, more, o, e) = lemma_source_first(name, negated, text);
    assert(toks == seq![t] + more);
    let root = root_frame(toks, end_span(rs));
    let items = run_spec(seq![root], rf)->Ok_0.0;
    assert(items.len() == 1 && items[0].kind == (ItemKindView::ParamText { name, negated, text }));
    reveal(iterate_spec);
    lemma_run_step(seq![root], rf);
    let r1 = FrameView { toks: more, ..root };
    assert(toks.drop_first() =~= more);
    assert(toks[0] == t);
    assert(set_top(seq![root], r1) =~= seq![r1]);
    match lex(t.body, t.body_start as int, rf, t.span.line as int) {
        Ok(ts) => {
            let ch = FrameView { toks: ts, items: Seq::empty(), attach: AttachView::Region(t), diags: Seq::empty(), depth: 1, end: t.span };
            assert(seq![r1].push(ch) =~= seq![r1] + seq![ch]);
            assert(advance_spec(seq![root], rf) == Ok::<Seq<FrameView>, crate::source::ErrorView>(seq![r1] + seq![ch]));
            lemma_run_step(seq![r1] + seq![ch], rf);
            lemma_mid_run(r1, seq![ch], rf);
        },
        Err(_) => {
            let r2 = FrameView { items: root.items.push(region_text_item(t)), ..r1 };
            assert(set_top(seq![root], r2) =~= seq![r2]);
            assert(advance_spec(seq![root], rf) == Ok::<Seq<FrameView>, crate::source::ErrorView>(seq![r2]));
            lemma_post_run(seq![r2], rf);
        },
    }
    assert(from_region(items[0], t));
    assert(t.text =~= g + name) by {
        if negated {
            assert(t.text =~= seq![33u8] + strip_bang(t.text));
        } else {
            assert(strip_bang(t.text) == t.text);
        }
    }
    assert(o == 2 + g.len() + name.len());
    assert(e == rs.len() - 1);
    assert(toks =~= seq![t]);
    assert(FrameView { depth: 0, ..root } == root);
}

} // verus!
