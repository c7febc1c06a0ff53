//! Where an entry that reading reports lies: from its key through its value.
use vstd::prelude::*;
use super::ast::{EntryView, ItemKindView, ItemView, ValueView, op_of};
use super::lexer::{Kind, TokenView, lex};
use super::parser::{
    AttachView, FrameView, Iteration, advance_spec, iterate_spec, run_spec, spec_parse, source_text, root_frame,
    end_span, lemma_iterate_decreases, lemma_frames_weight_nonneg, frames_weight, complete_container_spec,
    complete_region_frame, last_region, lemma_last_region, region_text_item, token_scalar, set_top,
};
use super::region_read::{keeps_root, lemma_advance_root};
use crate::source::{Span, through};

verus! {

/// A scalar entry at `span`, read from the tokens `ts`: some word of `ts` is its key and starts the
/// entry, the next token is its operator, and the one after is its value, which ends the entry.
pub open spec fn scalar_entry_at(span: Option<Span>, e: EntryView, ts: Seq<TokenView>) -> bool {
    exists|i: int| 0 <= i && i + 2 < ts.len()
        && (#[trigger] ts[i]).kind == Kind::Word && ts[i].text == e.key
        && ts[i + 1].kind == Kind::Op && op_of(ts[i + 1].text) == Some(e.op)
        && (ts[i + 2].kind == Kind::Word || ts[i + 2].kind == Kind::Math)
        && e.value == ValueView::Scalar(token_scalar(ts[i + 2]))
        && span == Some(through(ts[i].span, ts[i + 2].span))
}

/// An entry with a body at `span`, read from the tokens `ts`: some word of `ts` is its key and starts
/// the entry, which ends at a closing brace of `ts`, or, for a body left open, at `fin`, the end of
/// the source.
pub open spec fn body_entry_at(span: Option<Span>, key: Seq<u8>, ts: Seq<TokenView>, fin: Span) -> bool {
    ||| exists|k: int| 0 <= k < ts.len() && (#[trigger] ts[k]).kind == Kind::Word && ts[k].text == key
        && span == Some(through(ts[k].span, fin))
    ||| exists|k: int, c: int| 0 <= k < ts.len() && 0 <= c < ts.len() && (#[trigger] ts[k]).kind == Kind::Word
        && ts[k].text == key && (#[trigger] ts[c]).kind == Kind::Close && span == Some(through(ts[k].span, ts[c].span))
}

/// Every entry of an item, itself or in its bodies (not inside a conditional region), lies from its
/// key token through its value token, or through the end of its body, in `ts`.
pub open spec fn entry_ok(i: ItemView, ts: Seq<TokenView>, fin: Span) -> bool
    decreases i,
{
    match i.kind {
        ItemKindView::Entry(e) => match e.value {
            ValueView::Scalar(_) => scalar_entry_at(i.span, e, ts),
            ValueView::Container(c) => entries_ok(c.items, ts, fin) && body_entry_at(i.span, e.key, ts, fin),
        },
        ItemKindView::Container(c) => entries_ok(c.items, ts, fin),
        _ => true,
    }
}

pub open spec fn entries_ok(s: Seq<ItemView>, ts: Seq<TokenView>, fin: Span) -> bool
    decreases s,
{
    if s.len() == 0 {
        true
    } else {
        entry_ok(s[0], ts, fin) && entries_ok(s.subrange(1, s.len() as int), ts, fin)
    }
}

proof fn lemma_entries_push(s: Seq<ItemView>, x: ItemView, ts: Seq<TokenView>, fin: Span)
    requires
        entries_ok(s, ts, fin),
        entry_ok(x, ts, fin),
    ensures
        entries_ok(s.push(x), ts, fin),
    decreases s.len(),
{
    let t = s.push(x);
    let tail = t.subrange(1, t.len() as int);
    if s.len() > 0 {
        let r = s.subrange(1, s.len() as int);
        lemma_entries_push(r, x, ts, fin);
        assert(tail =~= r.push(x));
        assert(t[0] == s[0]);
    } else {
        assert(tail =~= Seq::<ItemView>::empty());
        assert(t[0] == x);
    }
    assert(entries_ok(t, ts, fin) == (entry_ok(t[0], ts, fin) && entries_ok(tail, ts, fin)));
}

/// `s` is what remains of `ts` after some of its first tokens.
pub open spec fn suffix_of(s: Seq<TokenView>, ts: Seq<TokenView>) -> bool {
    s.len() <= ts.len() && s == ts.skip(ts.len() - s.len())
}

/// A body opened by an entry starts at a word of `ts` that is the entry's key.
pub open spec fn attach_at(a: AttachView, ts: Seq<TokenView>) -> bool {
    match a {
        AttachView::Container { entry: Some((key, _)), span, .. } => exists|k: int| 0 <= k < ts.len()
            && (#[trigger] ts[k]).kind == Kind::Word && ts[k].text == key && ts[k].span == span,
        _ => true,
    }
}

pub open spec fn frame_ok(f: FrameView, ts: Seq<TokenView>, fin: Span) -> bool {
    &&& suffix_of(f.toks, ts)
    &&& entries_ok(f.items, ts, fin)
    &&& f.end == fin
    &&& attach_at(f.attach, ts)
}

/// No body up to `k` reads a conditional region.
pub open spec fn below(frames: Seq<FrameView>, k: int) -> bool {
    forall|j: int| 0 <= j <= k ==> !(#[trigger] frames[j].attach is Region)
}

/// The reader's bodies outside conditional regions read the tokens `ts` and hold entries that lie
/// in them; the lowest body is the root, and no other is.
pub open spec fn stack_ok(frames: Seq<FrameView>, ts: Seq<TokenView>, fin: Span) -> bool {
    &&& frames.len() > 0
    &&& frames[0].attach is Root
    &&& forall|k: int| 1 <= k < frames.len() ==> !(#[trigger] frames[k].attach is Root)
    &&& forall|k: int| 0 <= k < frames.len() && below(frames, k) ==> frame_ok(#[trigger] frames[k], ts, fin)
}

proof fn lemma_ok_set_top(frames: Seq<FrameView>, x: FrameView, ts: Seq<TokenView>, fin: Span)
    requires
        stack_ok(frames, ts, fin),
        x.attach == frames.last().attach,
        below(frames, frames.len() - 1) ==> frame_ok(x, ts, fin),
    ensures
        stack_ok(set_top(frames, x), ts, fin),
{
    let g = set_top(frames, x);
    assert forall|k: int| 0 <= k < g.len() implies #[trigger] g[k].attach == frames[k].attach by {}
    assert forall|k: int| 0 <= k < g.len() && below(g, k) implies frame_ok(#[trigger] g[k], ts, fin) by {
        assert forall|j: int| 0 <= j <= k implies !(#[trigger] frames[j].attach is Region) by {
            assert(g[j].attach == frames[j].attach);
        }
        if k < g.len() - 1 {
            assert(g[k] == frames[k]);
        }
    }
}

proof fn lemma_ok_push(frames: Seq<FrameView>, x: FrameView, ts: Seq<TokenView>, fin: Span)
    requires
        stack_ok(frames, ts, fin),
        !(x.attach is Root),
        below(frames, frames.len() - 1) && !(x.attach is Region) ==> frame_ok(x, ts, fin),
    ensures
        stack_ok(frames.push(x), ts, fin),
{
    let g = frames.push(x);
    assert forall|k: int| 0 <= k < frames.len() implies #[trigger] g[k] == frames[k] by {}
    assert forall|k: int| 0 <= k < g.len() && below(g, k) implies frame_ok(#[trigger] g[k], ts, fin) by {
        let m = if k < frames.len() { k } else { frames.len() - 1 };
        assert forall|j: int| 0 <= j <= m implies !(#[trigger] frames[j].attach is Region) by {
            assert(g[j] == frames[j]);
        }
        if k == frames.len() {
            assert(g[k] == x);
        }
    }
}

proof fn lemma_ok_take(frames: Seq<FrameView>, i: int, ts: Seq<TokenView>, fin: Span)
    requires
        stack_ok(frames, ts, fin),
        1 <= i <= frames.len(),
    ensures
        stack_ok(frames.take(i), ts, fin),
{
    let g = frames.take(i);
    assert forall|k: int| 0 <= k < g.len() implies #[trigger] g[k] == frames[k] by {}
    assert forall|k: int| 0 <= k < g.len() && below(g, k) implies frame_ok(#[trigger] g[k], ts, fin) by {
        assert forall|j: int| 0 <= j <= k implies !(#[trigger] frames[j].attach is Region) by {
            assert(g[j] == frames[j]);
        }
    }
}

proof fn lemma_suffix_skip(s: Seq<TokenView>, ts: Seq<TokenView>, k: int)
    requires
        suffix_of(s, ts),
        0 <= k <= s.len(),
    ensures
        suffix_of(s.skip(k), ts),
{
    assert(s.skip(k) =~= ts.skip(ts.len() - s.skip(k).len()));
}

proof fn lemma_suffix_index(s: Seq<TokenView>, ts: Seq<TokenView>, j: int)
    requires
        suffix_of(s, ts),
        0 <= j < s.len(),
    ensures
        s[j] == ts[ts.len() - s.len() + j],
{
    assert(ts.skip(ts.len() - s.len())[j] == ts[ts.len() - s.len() + j]);
}

proof fn lemma_ok_complete(frames: Seq<FrameView>, close: Option<TokenView>, ts: Seq<TokenView>, fin: Span)
    requires
        stack_ok(frames, ts, fin),
        frames.last().attach is Container,
        close matches Some(t) ==> t.kind == Kind::Close && (below(frames, frames.len() - 1) ==> exists|c: int| 0 <= c < ts.len() && ts[c] == t),
    ensures
        stack_ok(complete_container_spec(frames, close), ts, fin),
{
    let n = frames.len();
    assert(n >= 2) by {
        if n == 1 {
            assert(frames[0].attach is Root);
        }
    }
    let child = frames.last();
    let rest = frames.drop_last();
    let parent = rest.last();
    lemma_ok_take(frames, n - 1, ts, fin);
    assert(frames.take(n - 1) =~= rest);
    assert(parent == frames[n - 2]);
    let x = complete_container_spec(frames, close).last();
    if below(rest, n - 2) {
        assert forall|j: int| 0 <= j <= n - 1 implies !(#[trigger] frames[j].attach is Region) by {
            if j < n - 1 {
                assert(rest[j] == frames[j]);
            }
        }
        assert(below(frames, n - 2));
        assert(frame_ok(frames[n - 2], ts, fin));
        assert(frame_ok(frames[n - 1], ts, fin));
        let item = x.items.last();
        if let AttachView::Container { entry: Some((key, _)), span, .. } = frames[n - 1].attach {
            let k = choose|k: int| 0 <= k < ts.len() && (#[trigger] ts[k]).kind == Kind::Word && ts[k].text == key && ts[k].span == span;
            if let Some(t) = close {
                let c = choose|c: int| 0 <= c < ts.len() && ts[c] == t;
                assert(ts[c].kind == Kind::Close);
                assert(body_entry_at(item.span, key, ts, fin));
            } else {
                assert(body_entry_at(item.span, key, ts, fin));
            }
        }
        assert(entry_ok(item, ts, fin));
        lemma_entries_push(parent.items, item, ts, fin);
        assert(x.items == parent.items.push(item));
    }
    lemma_ok_set_top(rest, x, ts, fin);
}

proof fn lemma_ok_open(frames: Seq<FrameView>, x: FrameView, attach: AttachView, file: Seq<u8>, ts: Seq<TokenView>, fin: Span)
    requires
        stack_ok(frames, ts, fin),
        x.attach == frames.last().attach,
        below(frames, frames.len() - 1) ==> frame_ok(x, ts, fin),
        attach is Container,
        below(frames, frames.len() - 1) ==> attach_at(attach, ts),
    ensures
        super::parser::push_container_spec(set_top(frames, x), file, attach) matches Ok(g) ==> stack_ok(g, ts, fin),
{
    lemma_ok_set_top(frames, x, ts, fin);
    if below(frames, frames.len() - 1) {
        assert(frame_ok(frames[frames.len() - 1], ts, fin));
    }
    let f1 = set_top(frames, x);
    let p1 = FrameView { toks: Seq::empty(), ..x };
    assert(suffix_of(Seq::<TokenView>::empty(), ts)) by {
        assert(ts.skip(ts.len() as int) =~= Seq::<TokenView>::empty());
    }
    lemma_ok_set_top(f1, p1, ts, fin);
    let ch = FrameView { toks: x.toks, items: Seq::empty(), attach, diags: Seq::empty(), depth: x.depth + 1, end: x.end };
    assert(entries_ok(Seq::<ItemView>::empty(), ts, fin));
    assert(set_top(f1, p1) == set_top(frames, p1)) by {
        assert(set_top(f1, p1) =~= set_top(frames, p1));
    }
    let g = set_top(frames, p1);
    if below(g, g.len() - 1) {
        assert forall|j: int| 0 <= j <= frames.len() - 1 implies !(#[trigger] frames[j].attach is Region) by {
            assert(g[j].attach == frames[j].attach);
        }
    }
    lemma_ok_push(g, ch, ts, fin);
}

proof fn lemma_below_same(f: Seq<FrameView>, g: Seq<FrameView>, k: int)
    requires
        f.len() == g.len(),
        forall|j: int| 0 <= j < f.len() ==> #[trigger] g[j].attach == f[j].attach,
        k < f.len(),
    ensures
        below(g, k) == below(f, k),
{
    if below(f, k) {
        assert forall|j: int| 0 <= j <= k implies !(#[trigger] g[j].attach is Region) by {
            assert(g[j].attach == f[j].attach);
        }
    }
    if below(g, k) {
        assert forall|j: int| 0 <= j <= k implies !(#[trigger] f[j].attach is Region) by {
            assert(g[j].attach == f[j].attach);
        }
    }
}

proof fn lemma_entry_witness(ts: Seq<TokenView>, p: int, items: Seq<ItemView>, op: super::ast::Operator, fin: Span)
    requires
        0 <= p,
        p + 2 < ts.len(),
        ts[p].kind == Kind::Word,
        ts[p + 1].kind == Kind::Op,
        op_of(ts[p + 1].text) == Some(op),
        ts[p + 2].kind == Kind::Word || ts[p + 2].kind == Kind::Math,
        entries_ok(items, ts, fin),
    ensures
        entries_ok(items.push(ItemView {
            span: Some(through(ts[p].span, ts[p + 2].span)),
            kind: ItemKindView::Entry(EntryView { key: ts[p].text, op, value: ValueView::Scalar(token_scalar(ts[p + 2])) }),
        }), ts, fin),
{
    let v = token_scalar(ts[p + 2]);
    let e = EntryView { key: ts[p].text, op, value: ValueView::Scalar(v) };
    let item = ItemView { span: Some(through(ts[p].span, ts[p + 2].span)), kind: ItemKindView::Entry(e) };
    assert(scalar_entry_at(item.span, e, ts)) by {
        assert(0 <= p && p + 2 < ts.len() && ts[p].kind == Kind::Word && ts[p].text == e.key
            && ts[p + 1].kind == Kind::Op && op_of(ts[p + 1].text) == Some(e.op)
            && (ts[p + 2].kind == Kind::Word || ts[p + 2].kind == Kind::Math)
            && e.value == ValueView::Scalar(token_scalar(ts[p + 2]))
            && item.span == Some(through(ts[p].span, ts[p + 2].span)));
    }
    assert(entry_ok(item, ts, fin));
    lemma_entries_push(items, item, ts, fin);
}

/// A step on a top body whose next tokens are a word and an operator.
#[verifier::rlimit(80)]
#[verifier::spinoff_prover]
proof fn lemma_ok_entry(frames: Seq<FrameView>, file: Seq<u8>, ts: Seq<TokenView>, fin: Span)
    requires
        stack_ok(frames, ts, fin),
        frames.last().toks.len() > 1,
        frames.last().toks[0].kind == Kind::Word,
        frames.last().toks[1].kind == Kind::Op,
    ensures
        advance_spec(frames, file) matches Ok(g) ==> stack_ok(g, ts, fin),
{
    let n = frames.len();
    let top = frames.last();
    let bt = below(frames, n - 1);
    let toks = top.toks;
    let first = toks[0];
    let rest = toks.drop_first();
    let rest2 = rest.drop_first();
    assert(rest2 =~= toks.skip(2));
    if rest2.len() > 0 {
        if let Some(op) = op_of(toks[1].text) {
            let value = toks[2];
            let rest3 = rest2.drop_first();
            assert(rest3 =~= toks.skip(3));
            let header = value.kind == Kind::Word && !value.quoted && rest3.len() > 0
                && rest3[0].kind == Kind::Open && rest3[0].span.line == value.span.line;
            let rest4 = if header { rest3.drop_first() } else { rest3 };
            if header {
                assert(rest4 =~= toks.skip(4));
            }
            if bt {
                assert(frame_ok(frames[n - 1], ts, fin));
                lemma_suffix_skip(toks, ts, 3);
                if header {
                    lemma_suffix_skip(toks, ts, 4);
                }
            }
            lemma_ok_open(frames, FrameView { toks: rest4, ..top }, AttachView::Container {
                entry: Some((first.text, op)),
                header: if header { Some(value.text) } else { None },
                span: first.span,
            }, file, ts, fin);
            let item = ItemView {
                span: Some(through(first.span, value.span)),
                kind: ItemKindView::Entry(EntryView { key: first.text, op, value: ValueView::Scalar(token_scalar(value)) }),
            };
            if bt && (value.kind == Kind::Word || value.kind == Kind::Math) {
                let p = ts.len() - toks.len();
                lemma_suffix_index(toks, ts, 0);
                lemma_suffix_index(toks, ts, 1);
                lemma_suffix_index(toks, ts, 2);
                lemma_entry_witness(ts, p, top.items, op, fin);
            }
            if value.kind == Kind::Word || value.kind == Kind::Math {
                lemma_ok_set_top(frames, FrameView { toks: rest3, items: top.items.push(item), ..top }, ts, fin);
            }
        }
    }
}

/// A step on a top body whose next token is a word without an operator after it.
#[verifier::rlimit(80)]
#[verifier::spinoff_prover]
proof fn lemma_ok_bare(frames: Seq<FrameView>, file: Seq<u8>, ts: Seq<TokenView>, fin: Span)
    requires
        stack_ok(frames, ts, fin),
        frames.last().toks.len() > 0,
        frames.last().toks[0].kind == Kind::Word,
        !(frames.last().toks.len() > 1 && frames.last().toks[1].kind == Kind::Op),
    ensures
        advance_spec(frames, file) matches Ok(g) ==> stack_ok(g, ts, fin),
{
    let n = frames.len();
    let top = frames.last();
    let bt = below(frames, n - 1);
    let toks = top.toks;
    let first = toks[0];
    let rest = toks.drop_first();
    assert(rest =~= toks.skip(1));
    if bt {
        assert(frame_ok(frames[n - 1], ts, fin));
        lemma_suffix_skip(toks, ts, 1);
        if toks.len() > 1 {
            lemma_suffix_skip(toks, ts, 2);
        }
    }
    if toks.len() > 1 {
        assert(rest.drop_first() =~= toks.skip(2));
        let d = super::ast::DiagnosticView { kind: super::ast::Repair::OperatorLessEntry, span: first.span, text: first.text };
        lemma_ok_open(frames, FrameView { toks: rest.drop_first(), diags: top.diags.push(d), ..top },
            AttachView::Container { entry: Some((first.text, super::ast::Operator::Assign)), header: None, span: first.span }, file, ts, fin);
    }
    let item = ItemView { span: Some(first.span), kind: ItemKindView::Scalar(token_scalar(first)) };
    if bt {
        lemma_entries_push(top.items, item, ts, fin);
    }
    lemma_ok_set_top(frames, FrameView { items: top.items.push(item), toks: rest, ..top }, ts, fin);
}

/// One step of the reader keeps every body outside conditional regions reading `ts`, and every
/// scalar entry it holds lying from its key token through its value token.
#[verifier::rlimit(60)]
#[verifier::spinoff_prover]
proof fn lemma_ok_advance(frames: Seq<FrameView>, file: Seq<u8>, ts: Seq<TokenView>, fin: Span)
    requires
        stack_ok(frames, ts, fin),
    ensures
        advance_spec(frames, file) matches Ok(g) ==> stack_ok(g, ts, fin),
{
    let n = frames.len();
    let top = frames.last();
    let bt = below(frames, n - 1);
    if bt {
        assert(frame_ok(frames[n - 1], ts, fin));
        if top.toks.len() > 0 {
            lemma_suffix_skip(top.toks, ts, 1);
        }
    }
    if top.toks.len() == 0 {
        if top.attach is Container {
            lemma_ok_complete(frames, None, ts, fin);
        }
    } else if top.toks[0].kind == Kind::Word && top.toks.len() > 1 && top.toks[1].kind == Kind::Op {
        lemma_ok_entry(frames, file, ts, fin);
    } else if top.toks[0].kind == Kind::Word {
        lemma_ok_bare(frames, file, ts, fin);
    } else {
        let first = top.toks[0];
        let rest = top.toks.drop_first();
        assert(rest =~= top.toks.skip(1));
        let top1 = FrameView { toks: rest, ..top };
        lemma_ok_set_top(frames, top1, ts, fin);
        let frames1 = set_top(frames, top1);
        if first.kind == Kind::Close && top.attach is Container {
            lemma_below_same(frames, frames1, n - 1);
            if bt {
                lemma_suffix_index(top.toks, ts, 0);
                assert(ts[ts.len() - top.toks.len()] == first);
            }
            lemma_ok_complete(frames1, Some(first), ts, fin);
        } else if first.kind == Kind::Close {
            lemma_ok_set_top(frames, FrameView {
                diags: top.diags.push(super::ast::DiagnosticView { kind: super::ast::Repair::StrayClosingBrace, span: first.span, text: first.text }),
                ..top1
            }, ts, fin);
        } else if first.kind == Kind::Open {
            lemma_ok_open(frames, top1, AttachView::Container { entry: None, header: None, span: first.span }, file, ts, fin);
        } else if first.kind == Kind::Region {
            if let Ok(inner) = lex(first.body, first.body_start as int, file, first.span.line as int) {
                assert(frames1.last() == top1);
                lemma_ok_push(frames1, FrameView {
                    toks: inner,
                    items: Seq::empty(),
                    attach: AttachView::Region(first),
                    diags: Seq::empty(),
                    depth: top.depth + 1,
                    end: first.span,
                }, ts, fin);
            } else {
                if bt {
                    lemma_entries_push(top.items, region_text_item(first), ts, fin);
                }
                lemma_ok_set_top(frames, FrameView { items: top.items.push(region_text_item(first)), ..top1 }, ts, fin);
            }
        } else {
            let item = ItemView { span: Some(first.span), kind: ItemKindView::Scalar(token_scalar(first)) };
            if bt {
                lemma_entries_push(top.items, item, ts, fin);
            }
            lemma_ok_set_top(frames, FrameView { items: top.items.push(item), ..top1 }, ts, fin);
        }
    }
}

proof fn lemma_ok_iterate(frames: Seq<FrameView>, file: Seq<u8>, ts: Seq<TokenView>, fin: Span)
    requires
        stack_ok(frames, ts, fin),
    ensures
        iterate_spec(frames, file) matches Iteration::Continue(g) ==> stack_ok(g, ts, fin),
        iterate_spec(frames, file) matches Iteration::Finished(Ok((items, _))) ==> entries_ok(items, ts, fin),
{
    reveal(iterate_spec);
    lemma_ok_advance(frames, file, ts, fin);
    match advance_spec(frames, file) {
        Err(e) => {
            lemma_last_region(frames, frames.len() as int);
            if let Some(i) = last_region(frames, frames.len() as int) {
                assert(i >= 1);
                let kept = frames.take(i);
                lemma_ok_take(frames, i, ts, fin);
                let x = FrameView { items: kept.last().items.push(region_text_item(frames[i].attach->Region_0)), ..kept.last() };
                if below(kept, kept.len() - 1) {
                    assert(frame_ok(kept[kept.len() - 1], ts, fin));
                    lemma_entries_push(kept.last().items, region_text_item(frames[i].attach->Region_0), ts, fin);
                }
                lemma_ok_set_top(kept, x, ts, fin);
            }
        },
        Ok(g) => {
            if !(g.last().toks.len() > 0 || g.last().attach is Container) {
                if let AttachView::Region(t) = g.last().attach {
                    assert(g.len() >= 2);
                    let rest = g.drop_last();
                    lemma_ok_take(g, g.len() - 1, ts, fin);
                    assert(g.take(g.len() - 1) =~= rest);
                    let parent = rest.last();
                    let x = complete_region_frame(parent, t, g.last().items, g.last().diags);
                    if below(rest, rest.len() - 1) {
                        assert(frame_ok(rest[rest.len() - 1], ts, fin));
                        lemma_entries_push(parent.items, x.items.last(), ts, fin);
                        assert(x.items == parent.items.push(x.items.last()));
                    }
                    lemma_ok_set_top(rest, x, ts, fin);
                } else {
                    assert(g.len() == 1);
                    assert(below(g, 0));
                    assert(frame_ok(g[0], ts, fin));
                }
            }
        },
    }
}

proof fn lemma_ok_run(frames: Seq<FrameView>, file: Seq<u8>, ts: Seq<TokenView>, fin: Span)
    requires
        stack_ok(frames, ts, fin),
    ensures
        run_spec(frames, file) matches Ok((items, _)) ==> entries_ok(items, ts, fin),
    decreases frames_weight(frames), frames.len(),
{
    lemma_iterate_decreases(frames, file);
    lemma_frames_weight_nonneg(frames);
    lemma_ok_iterate(frames, file, ts, fin);
    super::roundtrip::lemma_run_step(frames, file);
    if let Iteration::Continue(g) = iterate_spec(frames, file) {
        lemma_ok_run(g, file, ts, fin);
    }
}

/// Every entry that reading reports, at the top level or in bodies (outside conditional regions),
/// spans from its key through its value. For a scalar value, some word of the source's tokens is
/// its key and starts the entry, the next token is its operator, and the one after is its value,
/// which ends the entry; so the entry `a = 1` lies over all of `a = 1`, not over its key alone. For
/// a body, the entry starts at a word that is its key and ends at a closing brace, or, where the
/// body is left open, at the end of the source.
pub proof fn law_entry_spans(src: Seq<u8>, file: Seq<u8>)
    ensures
        spec_parse(src, file) matches Ok(doc) ==> (lex(source_text(src).0, source_text(src).1, file, 1) matches Ok(ts)
            && entries_ok(doc.items, ts, end_span(src))),
{
    reveal(spec_parse);
    let (t, base) = source_text(src);
    if let Ok(ts) = lex(t, base, file, 1) {
        let fin = end_span(src);
        let root = root_frame(ts, end_span(src));
        assert(ts.skip(0) =~= ts);
        assert(entries_ok(Seq::<ItemView>::empty(), ts, fin));
        assert(frame_ok(root, ts, fin));
        let fr = seq![root];
        assert(forall|k: int| 0 <= k < fr.len() && below(fr, k) ==> frame_ok(#[trigger] fr[k], ts, fin));
        assert(stack_ok(fr, ts, fin));
        lemma_ok_run(fr, file, ts, fin);
    }
}

} // verus!
