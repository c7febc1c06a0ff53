//! Where the locations that reading reports lie.
use vstd::prelude::*;
use super::ast::{DiagnosticView, ItemKindView, ItemView, ValueView};
use super::lexer::{Kind, LexStep, TokenView, lex, lex_from, lex_step, lemma_lex_step, lemma_line_end};
use super::parser::{
    AttachView, FrameView, Iteration, advance_spec, iterate_spec, run_spec, spec_parse, source_text, root_frame,
    end_span, lemma_iterate_decreases, lemma_frames_weight_nonneg, frames_weight, complete_container_spec,
    complete_region_frame, last_region, region_text_item, token_scalar,
};
use crate::source::{Span, through};
use crate::text::{newlines, lemma_newlines_split, lemma_newlines_sub};

verus! {

/// A location that starts no later than it ends, at an offset at most `n`, on lines from one to `m`.
pub open spec fn span_in(s: Span, n: int, m: int) -> bool {
    &&& s.start <= s.end <= n
    &&& 1 <= s.line <= s.end_line <= m
}

/// A token located within the bounds; a region token's body lies within the token.
pub open spec fn tok_in(t: TokenView, n: int, m: int) -> bool {
    &&& span_in(t.span, n, m)
    &&& t.kind == Kind::Region ==> (t.body_start + t.body.len() <= t.span.end
        && t.span.line + newlines(t.body, 0, t.body.len() as int) <= t.span.end_line)
}

/// Location `a` ends no later than `b` starts.
pub open spec fn before(a: Span, b: Span) -> bool {
    a.end <= b.start && a.end_line <= b.line
}

/// Location `a` starts no later than `b` starts.
pub open spec fn starts_by(a: Span, b: Span) -> bool {
    a.start <= b.start && a.line <= b.line
}

/// Location `a` ends no later than `b` ends.
pub open spec fn ends_by(a: Span, b: Span) -> bool {
    a.end <= b.end && a.end_line <= b.end_line
}

/// Tokens within the bounds, in source order.
pub open spec fn toks_in(ts: Seq<TokenView>, n: int, m: int) -> bool {
    &&& forall|j: int| 0 <= j < ts.len() ==> tok_in(#[trigger] ts[j], n, m)
    &&& forall|i: int, j: int| 0 <= i < j < ts.len() ==> before(#[trigger] ts[i].span, #[trigger] ts[j].span)
}

/// What a tokenizer step reports: the token spans what it read, and the line count follows.
proof fn lemma_step_span(b: Seq<u8>, base: int, file: Seq<u8>, pos: int, line: int)
    requires
        0 <= pos < b.len(),
        0 <= base,
        base + b.len() <= usize::MAX,
        1 <= line,
        line + newlines(b, pos, b.len() as int) <= usize::MAX,
    ensures
        lex_step(b, base, file, pos, line) matches LexStep::Skip(p, l) ==> l == line + newlines(b, pos, p),
        lex_step(b, base, file, pos, line) matches LexStep::Tok(t, p, l) ==> {
            &&& l == line + newlines(b, pos, p)
            &&& t.span.start == base + pos && t.span.end == base + p
            &&& t.span.line == line && t.span.end_line == l
            &&& t.kind == Kind::Region ==> (t.body_start + t.body.len() <= base + p
                && t.span.line + newlines(t.body, 0, t.body.len() as int) <= l)
        },
{
    lemma_lex_step(b, base, file, pos, line);
    lemma_line_end(b, pos);
    match lex_step(b, base, file, pos, line) {
        LexStep::Skip(p, l) => {
            if b[pos] == 35u8 {
                crate::text::lemma_no_newlines(b, pos, p);
            }
        },
        LexStep::Tok(t, p, l) => {
            lemma_newlines_split(b, pos, p, b.len() as int);
            crate::text::lemma_newlines_bound(b, pos, p);
            if t.kind == Kind::Region {
                super::representable::lemma_find_from(b, 93u8, pos);
                let opener = super::representable::find_from(b, 93u8, pos)->Some_0;
                super::lexer::lemma_region_scan(b, opener + 1, 1);
                let e = super::lexer::region_scan(b, opener + 1, 1)->Some_0;
                assert(p == e + 1);
                assert(t.body_start == base + opener + 1);
                assert(t.body == b.subrange(opener + 1, e));
                lemma_newlines_sub(b, opener + 1, e, opener + 1, e);
                lemma_newlines_split(b, pos, opener + 1, e);
                lemma_newlines_split(b, pos, e, p);
            }
        },
        _ => {},
    }
}

/// Every token read from `b` lies within it.
pub proof fn lemma_lex_in(b: Seq<u8>, base: int, file: Seq<u8>, pos: int, line: int)
    requires
        0 <= pos <= b.len(),
        0 <= base,
        base + b.len() <= usize::MAX,
        1 <= line,
        line + newlines(b, pos, b.len() as int) <= usize::MAX,
    ensures
        lex_from(b, base, file, pos, line) matches Ok(ts) ==> toks_in(ts, base + b.len(), line + newlines(b, pos, b.len() as int))
            && forall|j: int| 0 <= j < ts.len() ==> base + pos <= (#[trigger] ts[j]).span.start && line <= ts[j].span.line,
    decreases b.len() - pos,
{
    if pos < b.len() {
        lemma_step_span(b, base, file, pos, line);
        lemma_lex_step(b, base, file, pos, line);
        let m = line + newlines(b, pos, b.len() as int);
        match lex_step(b, base, file, pos, line) {
            LexStep::Skip(p, l) => {
                lemma_newlines_split(b, pos, p, b.len() as int);
                lemma_lex_in(b, base, file, p, l);
            },
            LexStep::Tok(t, p, l) => {
                lemma_newlines_split(b, pos, p, b.len() as int);
                lemma_lex_in(b, base, file, p, l);
                if let Ok(rest) = lex_from(b, base, file, p, l) {
                    let ts = seq![t] + rest;
                    assert forall|j: int| 0 <= j < ts.len() implies tok_in(#[trigger] ts[j], base + b.len(), m)
                        && base + pos <= ts[j].span.start && line <= ts[j].span.line by {
                        if j > 0 {
                            assert(ts[j] == rest[j - 1]);
                        }
                    }
                    assert forall|i: int, j: int| 0 <= i < j < ts.len() implies before(#[trigger] ts[i].span, #[trigger] ts[j].span) by {
                        assert(ts[j] == rest[j - 1]);
                        if i > 0 {
                            assert(ts[i] == rest[i - 1]);
                        }
                    }
                }
            },
            _ => {},
        }
    }
}


proof fn lemma_toks_in_mono(ts: Seq<TokenView>, n: int, m: int, n2: int, m2: int)
    requires
        toks_in(ts, n, m),
        n <= n2,
        m <= m2,
    ensures
        toks_in(ts, n2, m2),
{
}

proof fn lemma_toks_skip(ts: Seq<TokenView>, k: int, n: int, m: int)
    requires
        toks_in(ts, n, m),
        0 <= k <= ts.len(),
    ensures
        toks_in(ts.skip(k), n, m),
{
    assert forall|j: int| 0 <= j < ts.skip(k).len() implies tok_in(#[trigger] ts.skip(k)[j], n, m) by {
        assert(ts.skip(k)[j] == ts[j + k]);
    }
}

/// Every location held by an item, at any depth, lies within the bounds.
pub open spec fn item_in(i: ItemView, n: int, m: int) -> bool
    decreases i,
{
    &&& i.span matches Some(s) ==> span_in(s, n, m)
    &&& match i.kind {
        ItemKindView::Entry(e) => match e.value {
            ValueView::Container(c) => items_in(c.items, n, m),
            _ => true,
        },
        ItemKindView::Container(c) => items_in(c.items, n, m),
        ItemKindView::Param { items, .. } => items_in(items, n, m),
        _ => true,
    }
}

pub open spec fn items_in(s: Seq<ItemView>, n: int, m: int) -> bool
    decreases s,
{
    if s.len() == 0 {
        true
    } else {
        item_in(s[0], n, m) && items_in(s.subrange(1, s.len() as int), n, m)
    }
}

pub open spec fn diags_in(d: Seq<DiagnosticView>, n: int, m: int) -> bool {
    forall|j: int| 0 <= j < d.len() ==> span_in(#[trigger] d[j].span, n, m)
}

proof fn lemma_items_push(s: Seq<ItemView>, x: ItemView, n: int, m: int)
    requires
        items_in(s, n, m),
        item_in(x, n, m),
    ensures
        items_in(s.push(x), n, m),
    decreases s.len(),
{
    let t = s.push(x);
    let tail = t.subrange(1, t.len() as int);
    if s.len() > 0 {
        let r = s.subrange(1, s.len() as int);
        lemma_items_push(r, x, n, m);
        assert(tail =~= r.push(x));
        assert(t[0] == s[0]);
    } else {
        assert(tail =~= Seq::<ItemView>::empty());
        assert(t[0] == x);
    }
    assert(items_in(t, n, m) == (item_in(t[0], n, m) && items_in(tail, n, m)));
}

proof fn lemma_diags_push(d: Seq<DiagnosticView>, x: DiagnosticView, n: int, m: int)
    requires
        diags_in(d, n, m),
        span_in(x.span, n, m),
    ensures
        diags_in(d.push(x), n, m),
{
    assert forall|j: int| 0 <= j < d.push(x).len() implies span_in(#[trigger] d.push(x)[j].span, n, m) by {
        if j < d.len() {
            assert(d.push(x)[j] == d[j]);
        }
    }
}

proof fn lemma_diags_append(d: Seq<DiagnosticView>, e: Seq<DiagnosticView>, n: int, m: int)
    requires
        diags_in(d, n, m),
        diags_in(e, n, m),
    ensures
        diags_in(d + e, n, m),
{
    assert forall|j: int| 0 <= j < (d + e).len() implies span_in(#[trigger] (d + e)[j].span, n, m) by {
        if j < d.len() {
            assert((d + e)[j] == d[j]);
        } else {
            assert((d + e)[j] == e[j - d.len()]);
        }
    }
}

/// A frame of the reader whose items, repairs, tokens and locations lie within the bounds: its
/// tokens end by its end, and an open body starts by its tokens and ends by the frame's end.
pub open spec fn frame_in(f: FrameView, n: int, m: int) -> bool {
    &&& items_in(f.items, n, m)
    &&& diags_in(f.diags, n, m)
    &&& toks_in(f.toks, n, m)
    &&& span_in(f.end, n, m)
    &&& forall|j: int| 0 <= j < f.toks.len() ==> ends_by(#[trigger] f.toks[j].span, f.end)
    &&& match f.attach {
        AttachView::Container { span, .. } => span_in(span, n, m) && ends_by(span, f.end)
            && forall|j: int| 0 <= j < f.toks.len() ==> starts_by(span, #[trigger] f.toks[j].span),
        AttachView::Region(t) => tok_in(t, n, m),
        AttachView::Root => true,
    }
}

/// A body opened inside another shares its end, and starts by where the enclosing body starts.
pub open spec fn nested_ok(outer: FrameView, inner: FrameView) -> bool {
    inner.attach matches AttachView::Container { span, .. } ==> (inner.end == outer.end
        && (outer.attach matches AttachView::Container { span: os, .. } ==> starts_by(os, span)))
}

pub open spec fn frames_in(frames: Seq<FrameView>, n: int, m: int) -> bool {
    &&& forall|k: int| 0 <= k < frames.len() ==> frame_in(#[trigger] frames[k], n, m)
    &&& forall|k: int| 1 <= k < frames.len() ==> nested_ok(frames[k - 1], #[trigger] frames[k])
}

proof fn lemma_in_set_top(frames: Seq<FrameView>, x: FrameView, n: int, m: int)
    requires
        frames_in(frames, n, m),
        frame_in(x, n, m),
        frames.len() > 0,
        x.attach == frames.last().attach,
        x.end == frames.last().end,
    ensures
        frames_in(super::parser::set_top(frames, x), n, m),
{
    let g = super::parser::set_top(frames, x);
    assert forall|k: int| 0 <= k < g.len() implies frame_in(#[trigger] g[k], n, m) by {
        if k < frames.len() - 1 {
            assert(g[k] == frames[k]);
        }
    }
    assert forall|k: int| 1 <= k < g.len() implies nested_ok(g[k - 1], #[trigger] g[k]) by {
        assert(nested_ok(frames[k - 1], frames[k]));
        if k < frames.len() - 1 {
            assert(g[k] == frames[k]);
        }
        assert(g[k - 1] == frames[k - 1]);
    }
}

proof fn lemma_in_push(frames: Seq<FrameView>, x: FrameView, n: int, m: int)
    requires
        frames_in(frames, n, m),
        frame_in(x, n, m),
        frames.len() > 0,
        nested_ok(frames.last(), x),
    ensures
        frames_in(frames.push(x), n, m),
{
    let g = frames.push(x);
    assert forall|k: int| 0 <= k < g.len() implies frame_in(#[trigger] g[k], n, m) by {
        if k < frames.len() {
            assert(g[k] == frames[k]);
        }
    }
    assert forall|k: int| 1 <= k < g.len() implies nested_ok(g[k - 1], #[trigger] g[k]) by {
        assert(g[k - 1] == frames[k - 1]);
        if k < frames.len() {
            assert(g[k] == frames[k]);
            assert(nested_ok(frames[k - 1], frames[k]));
        }
    }
}

proof fn lemma_in_take(frames: Seq<FrameView>, i: int, n: int, m: int)
    requires
        frames_in(frames, n, m),
        0 <= i <= frames.len(),
    ensures
        frames_in(frames.take(i), n, m),
{
    let g = frames.take(i);
    assert forall|k: int| 0 <= k < g.len() implies frame_in(#[trigger] g[k], n, m) by {
        assert(g[k] == frames[k]);
    }
    assert forall|k: int| 1 <= k < g.len() implies nested_ok(g[k - 1], #[trigger] g[k]) by {
        assert(g[k] == frames[k] && g[k - 1] == frames[k - 1]);
        assert(nested_ok(frames[k - 1], frames[k]));
    }
}

/// The first `k` tokens of a frame are read: what remains keeps every bound.
proof fn lemma_frame_skip(f: FrameView, k: int, n: int, m: int)
    requires
        frame_in(f, n, m),
        0 <= k <= f.toks.len(),
    ensures
        frame_in(FrameView { toks: f.toks.skip(k), ..f }, n, m),
{
    lemma_toks_skip(f.toks, k, n, m);
    let r = f.toks.skip(k);
    assert forall|j: int| 0 <= j < r.len() implies ends_by(#[trigger] r[j].span, f.end) by {
        assert(r[j] == f.toks[j + k]);
    }
    if let AttachView::Container { span, .. } = f.attach {
        assert forall|j: int| 0 <= j < r.len() implies starts_by(span, #[trigger] r[j].span) by {
            assert(r[j] == f.toks[j + k]);
        }
    }
}

/// A body opened at token `k` of the top frame, holding the tokens after `skip`.
proof fn lemma_in_open(frames: Seq<FrameView>, file: Seq<u8>, k: int, skip: int, x: FrameView, attach: AttachView, n: int, m: int)
    requires
        frames_in(frames, n, m),
        frames.len() > 0,
        0 <= k < skip <= frames.last().toks.len(),
        x.toks == frames.last().toks.skip(skip),
        x.attach == frames.last().attach,
        x.end == frames.last().end,
        frame_in(x, n, m),
        (attach matches AttachView::Container { span, .. } && span == frames.last().toks[k].span),
    ensures
        super::parser::push_container_spec(super::parser::set_top(frames, x), file, attach) matches Ok(g) ==> frames_in(g, n, m),
{
    let top = frames.last();
    assert(frame_in(frames[frames.len() - 1], n, m));
    lemma_in_set_top(frames, x, n, m);
    let f1 = super::parser::set_top(frames, x);
    let span = top.toks[k].span;
    let p1 = FrameView { toks: Seq::empty(), ..x };
    assert(frame_in(p1, n, m));
    lemma_in_set_top(f1, p1, n, m);
    let child = FrameView { toks: x.toks, items: Seq::empty(), attach, diags: Seq::empty(), depth: x.depth + 1, end: x.end };
    assert(tok_in(top.toks[k], n, m));
    assert(ends_by(span, top.end));
    assert forall|j: int| 0 <= j < child.toks.len() implies starts_by(span, #[trigger] child.toks[j].span) by {
        assert(child.toks[j] == top.toks[j + skip]);
        assert(before(top.toks[k].span, top.toks[j + skip].span));
    }
    assert forall|j: int| 0 <= j < child.toks.len() implies tok_in(#[trigger] child.toks[j], n, m) by {
        assert(child.toks[j] == x.toks[j]);
    }
    assert forall|i: int, j: int| 0 <= i < j < child.toks.len() implies before(#[trigger] child.toks[i].span, #[trigger] child.toks[j].span) by {
        assert(child.toks[i] == x.toks[i] && child.toks[j] == x.toks[j]);
    }
    assert forall|j: int| 0 <= j < child.toks.len() implies ends_by(#[trigger] child.toks[j].span, child.end) by {
        assert(child.toks[j] == x.toks[j]);
    }
    assert(frame_in(child, n, m));
    if let AttachView::Container { span: os, .. } = top.attach {
        assert(starts_by(os, span));
    }
    assert(nested_ok(p1, child));
    lemma_in_push(super::parser::set_top(f1, p1), child, n, m);
}

proof fn lemma_in_complete_container(frames: Seq<FrameView>, close: Option<TokenView>, n: int, m: int)
    requires
        frames_in(frames, n, m),
        frames.len() >= 2,
        frames.last().attach is Container,
        close matches Some(t) ==> (tok_in(t, n, m) && starts_by(frames.last().attach->Container_span, t.span)),
    ensures
        frames_in(complete_container_spec(frames, close), n, m),
{
    let rest = frames.drop_last();
    let child = frames.last();
    assert(frame_in(frames[frames.len() - 1], n, m));
    assert(frame_in(frames[frames.len() - 2], n, m));
    assert(nested_ok(frames[frames.len() - 2], frames[frames.len() - 1]));
    assert(rest.last() == frames[frames.len() - 2]);
    lemma_in_take(frames, frames.len() - 1, n, m);
    assert(frames.take(frames.len() - 1) =~= rest);
    let parent = rest.last();
    if let AttachView::Container { entry, header, span } = child.attach {
        let end = match close {
            Some(t) => t.span,
            None => child.end,
        };
        let diags = if close is None {
            child.diags.push(DiagnosticView { kind: super::ast::Repair::UnclosedAtEof, span, text: seq![123u8] })
        } else {
            child.diags
        };
        if close is None {
            lemma_diags_push(child.diags, DiagnosticView { kind: super::ast::Repair::UnclosedAtEof, span, text: seq![123u8] }, n, m);
        }
        lemma_diags_append(parent.diags, diags, n, m);
        let body = super::ast::ContainerView { header, items: child.items };
        let kind = match entry {
            Some((key, op)) => ItemKindView::Entry(super::ast::EntryView { key, op, value: ValueView::Container(body) }),
            None => ItemKindView::Container(body),
        };
        let item = ItemView { kind, span: Some(through(span, end)) };
        assert(item_in(item, n, m));
        lemma_items_push(parent.items, item, n, m);
        let x = complete_container_spec(frames, close).last();
        assert(x == FrameView { items: parent.items.push(item), diags: parent.diags + diags, toks: child.toks, ..parent });
        assert forall|j: int| 0 <= j < x.toks.len() implies ends_by(#[trigger] x.toks[j].span, x.end) by {
            assert(x.toks[j] == child.toks[j]);
        }
        if let AttachView::Container { span: ps, .. } = parent.attach {
            assert forall|j: int| 0 <= j < x.toks.len() implies starts_by(ps, #[trigger] x.toks[j].span) by {
                assert(x.toks[j] == child.toks[j]);
                assert(starts_by(span, child.toks[j].span));
            }
        }
        assert(frame_in(x, n, m));
        lemma_in_set_top(rest, x, n, m);
        assert(complete_container_spec(frames, close) == super::parser::set_top(rest, x));
    }
}

/// One step of the reader keeps every location within the bounds.
#[verifier::rlimit(80)]
#[verifier::spinoff_prover]
proof fn lemma_advance_in(frames: Seq<FrameView>, file: Seq<u8>, n: int, m: int)
    requires
        frames_in(frames, n, m),
        frames.len() >= 1,
        n <= usize::MAX,
        m <= usize::MAX,
    ensures
        advance_spec(frames, file) matches Ok(g) ==> frames_in(g, n, m),
{
    let top = frames.last();
    assert(frame_in(frames[frames.len() - 1], n, m));
    if top.toks.len() == 0 {
        if top.attach is Container && frames.len() >= 2 {
            lemma_in_complete_container(frames, None, n, m);
        }
    } else {
        let first = top.toks[0];
        let rest = top.toks.drop_first();
        assert(tok_in(top.toks[0], n, m));
        lemma_toks_skip(top.toks, 1, n, m);
        assert(rest =~= top.toks.skip(1));
        if top.toks.len() >= 2 {
            assert(tok_in(top.toks[1], n, m));
            lemma_toks_skip(top.toks, 2, n, m);
        }
        if top.toks.len() >= 3 {
            assert(tok_in(top.toks[2], n, m));
            lemma_toks_skip(top.toks, 3, n, m);
        }
        if top.toks.len() >= 4 {
            lemma_toks_skip(top.toks, 4, n, m);
        }
        let top1 = FrameView { toks: rest, ..top };
        let frames1 = super::parser::set_top(frames, top1);
        lemma_in_set_top(frames, top1, n, m);
        if let Ok(g) = advance_spec(frames, file) {
            if first.kind == Kind::Close && top.attach is Container {
                if frames1.len() >= 2 {
                    assert(starts_by(top.attach->Container_span, top.toks[0].span));
                    lemma_in_complete_container(frames1, Some(first), n, m);
                }
            } else if first.kind == Kind::Close {
                lemma_diags_push(top.diags, DiagnosticView { kind: super::ast::Repair::StrayClosingBrace, span: first.span, text: first.text }, n, m);
                lemma_in_set_top(frames, FrameView {
                    diags: top.diags.push(DiagnosticView { kind: super::ast::Repair::StrayClosingBrace, span: first.span, text: first.text }),
                    ..top1
                }, n, m);
            } else if first.kind == Kind::Open {
                lemma_frame_skip(top, 1, n, m);
                lemma_in_open(frames, file, 0, 1, top1, AttachView::Container { entry: None, header: None, span: first.span }, n, m);
            } else if first.kind == Kind::Region {
                lemma_lex_in(first.body, first.body_start as int, file, 0, first.span.line as int);
                if let Ok(ts) = lex(first.body, first.body_start as int, file, first.span.line as int) {
                    let bn = first.body_start + first.body.len();
                    let bm = first.span.line + newlines(first.body, 0, first.body.len() as int);
                    lemma_toks_in_mono(ts, bn, bm, n, m);
                    let child = FrameView {
                        toks: ts,
                        items: Seq::empty(),
                        attach: AttachView::Region(first),
                        diags: Seq::empty(),
                        depth: top.depth + 1,
                        end: first.span,
                    };
                    assert forall|j: int| 0 <= j < ts.len() implies ends_by(#[trigger] ts[j].span, first.span) by {
                        assert(tok_in(ts[j], bn, bm));
                    }
                    assert(frame_in(child, n, m));
                    lemma_in_push(frames1, child, n, m);
                } else {
                    lemma_items_push(top.items, region_text_item(first), n, m);
                    lemma_in_set_top(frames, FrameView { items: top.items.push(region_text_item(first)), ..top1 }, n, m);
                }
            } else if first.kind == Kind::Word && rest.len() > 0 && rest[0].kind == Kind::Op {
                let rest2 = rest.drop_first();
                let value = rest2[0];
                let rest3 = rest2.drop_first();
                assert(rest3 =~= top.toks.skip(3));
                assert(value == top.toks[2]);
                let header = value.kind == Kind::Word && !value.quoted && rest3.len() > 0
                    && rest3[0].kind == Kind::Open && rest3[0].span.line == value.span.line;
                let rest4 = if header { rest3.drop_first() } else { rest3 };
                assert(header ==> rest4 =~= top.toks.skip(4));
                let op = super::ast::op_of(rest[0].text).unwrap();
                if value.kind == Kind::Open || header {
                    let t4 = FrameView { toks: rest4, ..top };
                    let skip: int = if header { 4 } else { 3 };
                    lemma_frame_skip(top, skip, n, m);
                    assert(rest4 =~= top.toks.skip(skip));
                    lemma_in_open(frames, file, 0, skip, t4, AttachView::Container {
                        entry: Some((first.text, op)),
                        header: if header { Some(value.text) } else { None },
                        span: first.span,
                    }, n, m);
                } else {
                    let item = ItemView {
                        span: Some(through(first.span, value.span)),
                        kind: ItemKindView::Entry(super::ast::EntryView { key: first.text, op, value: ValueView::Scalar(token_scalar(value)) }),
                    };
                    lemma_items_push(top.items, item, n, m);
                    lemma_in_set_top(frames, FrameView { toks: rest3, items: top.items.push(item), ..top }, n, m);
                }
            } else if first.kind == Kind::Word {
                let same_line_block = rest.len() > 0 && rest[0].kind == Kind::Open && rest[0].span.line == first.span.line;
                let entry_body = rest.len() > 1 && rest[1].kind == Kind::Word && rest.len() > 2 && rest[2].kind == Kind::Op;
                if same_line_block && (top.attach is Root || entry_body) {
                    assert(rest.drop_first() =~= top.toks.skip(2));
                    let d = DiagnosticView { kind: super::ast::Repair::OperatorLessEntry, span: first.span, text: first.text };
                    lemma_diags_push(top.diags, d, n, m);
                    let t2 = FrameView { toks: rest.drop_first(), diags: top.diags.push(d), ..top };
                    lemma_frame_skip(top, 2, n, m);
                    assert(frame_in(t2, n, m));
                    lemma_in_open(frames, file, 0, 2, t2,
                        AttachView::Container { entry: Some((first.text, super::ast::Operator::Assign)), header: None, span: first.span }, n, m);
                } else {
                    let item = ItemView { span: Some(first.span), kind: ItemKindView::Scalar(token_scalar(first)) };
                    lemma_items_push(top.items, item, n, m);
                    lemma_in_set_top(frames, FrameView { items: top.items.push(item), ..top1 }, n, m);
                }
            } else {
                let item = ItemView { span: Some(first.span), kind: ItemKindView::Scalar(token_scalar(first)) };
                lemma_items_push(top.items, item, n, m);
                lemma_in_set_top(frames, FrameView { items: top.items.push(item), ..top1 }, n, m);
            }
        }
    }
}

proof fn lemma_iterate_in(frames: Seq<FrameView>, file: Seq<u8>, n: int, m: int)
    requires
        frames_in(frames, n, m),
        n <= usize::MAX,
        m <= usize::MAX,
    ensures
        iterate_spec(frames, file) matches Iteration::Continue(g) ==> frames_in(g, n, m),
        iterate_spec(frames, file) matches Iteration::Finished(Ok((items, diags))) ==> items_in(items, n, m) && diags_in(diags, n, m),
{
    reveal(iterate_spec);
    if frames.len() > 0 {
        lemma_advance_in(frames, file, n, m);
        match advance_spec(frames, file) {
            Err(e) => {
                super::parser::lemma_last_region(frames, frames.len() as int);
                if let Some(i) = last_region(frames, frames.len() as int) {
                    let kept = frames.take(i);
                    lemma_in_take(frames, i, n, m);
                    assert(frame_in(frames[i], n, m));
                    if kept.len() > 0 {
                        assert(frame_in(kept[kept.len() - 1], n, m));
                        lemma_items_push(kept.last().items, region_text_item(frames[i].attach->Region_0), n, m);
                        lemma_in_set_top(kept, FrameView {
                            items: kept.last().items.push(region_text_item(frames[i].attach->Region_0)),
                            ..kept.last()
                        }, n, m);
                    }
                }
            },
            Ok(g) => {
                if g.len() > 0 {
                    assert(frame_in(g[g.len() - 1], n, m));
                }
                if !(g.len() == 0 || g.last().toks.len() > 0 || g.last().attach is Container) {
                    let complete = g.last();
                    if let AttachView::Region(t) = complete.attach {
                        let rest = g.drop_last();
                        lemma_in_take(g, g.len() - 1, n, m);
                        assert(g.take(g.len() - 1) =~= rest);
                        if rest.len() > 0 {
                            let parent = rest.last();
                            assert(frame_in(rest[rest.len() - 1], n, m));
                            let x = complete_region_frame(parent, t, complete.items, complete.diags);
                            if super::parser::needs_verbatim(complete.diags) {
                                lemma_items_push(parent.items, region_text_item(t), n, m);
                            } else {
                                lemma_items_push(parent.items, ItemView {
                                    span: Some(t.span),
                                    kind: ItemKindView::Param { name: super::lexer::strip_bang(t.text), negated: super::parser::is_negated(t), items: complete.items },
                                }, n, m);
                                lemma_diags_append(parent.diags, complete.diags, n, m);
                            }
                            lemma_in_set_top(rest, x, n, m);
                        }
                    }
                }
            },
        }
    }
}

proof fn lemma_run_in(frames: Seq<FrameView>, file: Seq<u8>, n: int, m: int)
    requires
        frames_in(frames, n, m),
        n <= usize::MAX,
        m <= usize::MAX,
    ensures
        run_spec(frames, file) matches Ok((items, diags)) ==> items_in(items, n, m) && diags_in(diags, n, m),
    decreases frames_weight(frames), frames.len(),
{
    lemma_iterate_decreases(frames, file);
    lemma_frames_weight_nonneg(frames);
    lemma_iterate_in(frames, file, n, m);
    if let Iteration::Continue(g) = iterate_spec(frames, file) {
        lemma_run_in(g, file, n, m);
    }
}

/// Reading keeps the file name it was given, and every location that it reports, of an item at
/// any depth or of a repair, lies within the source and runs forward: its start is at or before
/// its end, both at most the source's length in bytes, and its first line is at or before its last,
/// both from one to the source's line count.
pub proof fn law_parse_spans(src: Seq<u8>, file: Seq<u8>)
    requires
        src.len() < usize::MAX,
    ensures
        spec_parse(src, file) matches Ok(doc) ==> doc.file == file
            && items_in(doc.items, src.len() as int, newlines(src, 0, src.len() as int) + 1int)
            && diags_in(doc.diagnostics, src.len() as int, newlines(src, 0, src.len() as int) + 1int),
{
    reveal(spec_parse);
    let (t, base) = source_text(src);
    let n = src.len() as int;
    let m: int = newlines(src, 0, src.len() as int) + 1int;
    crate::text::lemma_newlines_bound(src, 0, src.len() as int);
    assert(newlines(t, 0, t.len() as int) + 1 <= m) by {
        if base == 3 {
            lemma_newlines_sub(src, 3, src.len() as int, 3, src.len() as int);
            lemma_newlines_split(src, 0, 3, src.len() as int);
        }
    }
    lemma_lex_in(t, base, file, 0, 1);
    if let Ok(toks) = lex(t, base, file, 1) {
        lemma_toks_in_mono(toks, base + t.len(), 1 + newlines(t, 0, t.len() as int) as int, n, m);
        assert forall|j: int| 0 <= j < toks.len() implies ends_by(#[trigger] toks[j].span, end_span(src)) by {
            assert(tok_in(toks[j], n, m));
        }
        let root = root_frame(toks, end_span(src));
        assert(span_in(end_span(src), n, m));
        assert(frame_in(root, n, m));
        assert(frames_in(seq![root], n, m));
        lemma_run_in(seq![root], file, n, m);
    }
}

} // verus!
