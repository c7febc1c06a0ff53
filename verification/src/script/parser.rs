use vstd::prelude::*;
use vstd::string::*;
use super::ast::{
    ContainerView, Diagnostic, DiagnosticView, Document, DocumentView, Entry, EntryView, Item,
    ItemKind, ItemKindView, ItemView, Operator, Repair, Scalar, ScalarView, Value, ValueView,
    Container, items_view, item_view, lemma_items_view, lemma_items_view_push, op_of,
};
use super::lexer::{
    Kind, Token, TokenView, lex, lemma_lex_fits, lemma_lex_weight, strip_bang, token_fits,
    token_weight, tokens_view, tokens_weight, tokenize,
};
use super::representable::{classify, classify_unquoted};
use crate::source::{Cursor, ErrorKind, ErrorView, Span, SyntaxError, error, syntax_error, through};
use crate::text::{bytes, byte_len, newlines};
use crate::MAX_NESTING_DEPTH;

verus! {

broadcast use vstd::seq_lib::group_seq_properties;

/// What a frame's items become once it completes.
pub enum AttachView {
    Root,
    Container { entry: Option<(Seq<u8>, Operator)>, header: Option<Seq<u8>>, span: Span },
    Region(TokenView),
}

/// One open body: its unread tokens, the items and repairs gathered so far, and its depth.
pub struct FrameView {
    pub toks: Seq<TokenView>,
    pub items: Seq<ItemView>,
    pub attach: AttachView,
    pub diags: Seq<DiagnosticView>,
    pub depth: int,
    pub end: Span,
}

pub open spec fn limit_error(file: Seq<u8>, span: Span) -> ErrorView {
    ErrorView {
        kind: ErrorKind::NestingLimit,
        ..syntax_error(file, span, "Nesting exceeds supported limit".spec_bytes())
    }
}

/// The scalar a value token denotes.
pub open spec fn token_scalar(t: TokenView) -> ScalarView {
    if t.kind == Kind::Math {
        ScalarView::Math { source: t.text }
    } else if t.quoted {
        ScalarView::Str { value: t.text, quoted: true }
    } else {
        classify(t.text)
    }
}

pub open spec fn is_negated(t: TokenView) -> bool {
    t.text.len() > 0 && t.text[0] == 33u8
}

/// A conditional region kept as verbatim text.
pub open spec fn region_text_item(t: TokenView) -> ItemView {
    ItemView {
        span: Some(t.span),
        kind: ItemKindView::ParamText { name: strip_bang(t.text), negated: is_negated(t), text: t.body },
    }
}

pub open spec fn set_top(frames: Seq<FrameView>, f: FrameView) -> Seq<FrameView> {
    if frames.len() == 0 {
        frames
    } else {
        frames.update(frames.len() - 1, f)
    }
}

pub open spec fn push_container_spec(frames: Seq<FrameView>, file: Seq<u8>, attach: AttachView) -> Result<Seq<FrameView>, ErrorView> {
    let parent = frames.last();
    let depth = parent.depth + 1;
    if depth > MAX_NESTING_DEPTH {
        Err(limit_error(file, if parent.toks.len() > 0 { parent.toks[0].span } else { parent.end }))
    } else {
        Ok(set_top(frames, FrameView { toks: Seq::empty(), ..parent }).push(FrameView {
            toks: parent.toks,
            items: Seq::empty(),
            attach,
            diags: Seq::empty(),
            depth,
            end: parent.end,
        }))
    }
}

pub open spec fn complete_container_spec(frames: Seq<FrameView>, close: Option<TokenView>) -> Seq<FrameView> {
    let child = frames.last();
    let rest = frames.drop_last();
    let parent = rest.last();
    if frames.len() < 2 {
        Seq::empty()
    } else {
    match child.attach {
        AttachView::Container { entry, header, span } => {
            let end = match close {
                Some(t) => t.span,
                None => child.end,
            };
            let diags = if close is None {
                child.diags.push(DiagnosticView { kind: Repair::UnclosedAtEof, span, text: seq![123u8] })
            } else {
                child.diags
            };
            let body = ContainerView { header, items: child.items };
            let kind = match entry {
                Some((key, op)) => ItemKindView::Entry(EntryView { key, op, value: ValueView::Container(body) }),
                None => ItemKindView::Container(body),
            };
            set_top(rest, FrameView {
                items: parent.items.push(ItemView { kind, span: Some(through(span, end)) }),
                diags: parent.diags + diags,
                toks: child.toks,
                ..parent
            })
        },
        _ => frames,
    }
    }
}

/// One step of the frame machine: the top frame reads its next token.
pub open spec fn advance_spec(frames: Seq<FrameView>, file: Seq<u8>) -> Result<Seq<FrameView>, ErrorView> {
    let top = frames.last();
    if top.toks.len() == 0 {
        if top.attach is Container {
            Ok(complete_container_spec(frames, None))
        } else {
            Ok(frames)
        }
    } else {
        let first = top.toks[0];
        let rest = top.toks.drop_first();
        let top1 = FrameView { toks: rest, ..top };
        let frames1 = set_top(frames, top1);
        if first.kind == Kind::Close && top.attach is Container {
            Ok(complete_container_spec(frames1, Some(first)))
        } else if first.kind == Kind::Close {
            Ok(set_top(frames, FrameView {
                diags: top.diags.push(DiagnosticView { kind: Repair::StrayClosingBrace, span: first.span, text: first.text }),
                ..top1
            }))
        } else if first.kind == Kind::Open {
            push_container_spec(frames1, file, AttachView::Container { entry: None, header: None, span: first.span })
        } else if first.kind == Kind::Bracket || first.kind == Kind::Op {
            Err(syntax_error(file, first.span, "Expected a key or value".spec_bytes()))
        } else if first.kind == Kind::Region {
            let depth = top.depth + 1;
            if depth > MAX_NESTING_DEPTH {
                Err(limit_error(file, first.span))
            } else {
                match lex(first.body, first.body_start as int, file, first.span.line as int) {
                    Ok(ts) => Ok(frames1.push(FrameView {
                        toks: ts,
                        items: Seq::empty(),
                        attach: AttachView::Region(first),
                        diags: Seq::empty(),
                        depth,
                        end: first.span,
                    })),
                    Err(_) => Ok(set_top(frames, FrameView { items: top.items.push(region_text_item(first)), ..top1 })),
                }
            }
        } else if first.kind == Kind::Word && rest.len() > 0 && rest[0].kind == Kind::Op {
            let op_tok = rest[0];
            let rest2 = rest.drop_first();
            match op_of(op_tok.text) {
                None => Err(syntax_error(file, op_tok.span, "Unsupported operator".spec_bytes())),
                Some(op) => if rest2.len() == 0 {
                    Err(syntax_error(file, op_tok.span, "Missing value".spec_bytes()))
                } else {
                    let value = rest2[0];
                    let rest3 = rest2.drop_first();
                    let header = value.kind == Kind::Word && !value.quoted && rest3.len() > 0
                        && rest3[0].kind == Kind::Open && rest3[0].span.line == value.span.line;
                    if value.kind == Kind::Open || header {
                        let rest4 = if header { rest3.drop_first() } else { rest3 };
                        push_container_spec(
                            set_top(frames, FrameView { toks: rest4, ..top }),
                            file,
                            AttachView::Container {
                                entry: Some((first.text, op)),
                                header: if header { Some(value.text) } else { None },
                                span: first.span,
                            },
                        )
                    } else if value.kind == Kind::Word || value.kind == Kind::Math {
                        Ok(set_top(frames, FrameView {
                            toks: rest3,
                            items: top.items.push(ItemView {
                                span: Some(through(first.span, value.span)),
                                kind: ItemKindView::Entry(EntryView {
                                    key: first.text,
                                    op,
                                    value: ValueView::Scalar(token_scalar(value)),
                                }),
                            }),
                            ..top
                        }))
                    } else {
                        Err(syntax_error(file, value.span, "Expected a value".spec_bytes()))
                    }
                },
            }
        } else if first.kind == Kind::Word {
            let same_line_block = rest.len() > 0 && rest[0].kind == Kind::Open && rest[0].span.line == first.span.line;
            let entry_body = rest.len() > 1 && rest[1].kind == Kind::Word && rest.len() > 2 && rest[2].kind == Kind::Op;
            if same_line_block && (top.attach is Root || entry_body) {
                push_container_spec(
                    set_top(frames, FrameView {
                        toks: rest.drop_first(),
                        diags: top.diags.push(DiagnosticView { kind: Repair::OperatorLessEntry, span: first.span, text: first.text }),
                        ..top
                    }),
                    file,
                    AttachView::Container { entry: Some((first.text, Operator::Assign)), header: None, span: first.span },
                )
            } else {
                Ok(set_top(frames, FrameView {
                    items: top.items.push(ItemView { span: Some(first.span), kind: ItemKindView::Scalar(token_scalar(first)) }),
                    ..top1
                }))
            }
        } else {
            Ok(set_top(frames, FrameView {
                items: top.items.push(ItemView { span: Some(first.span), kind: ItemKindView::Scalar(token_scalar(first)) }),
                ..top1
            }))
        }
    }
}

/// Whether a region body's repairs force it back to verbatim text.
pub open spec fn needs_verbatim(diags: Seq<DiagnosticView>) -> bool {
    exists|i: int| 0 <= i < diags.len() && #[trigger] diags[i].kind != Repair::OperatorLessEntry
}

pub open spec fn complete_region_frame(parent: FrameView, t: TokenView, items: Seq<ItemView>, diags: Seq<DiagnosticView>) -> FrameView {
    if needs_verbatim(diags) {
        FrameView { items: parent.items.push(region_text_item(t)), ..parent }
    } else {
        FrameView {
            items: parent.items.push(ItemView {
                span: Some(t.span),
                kind: ItemKindView::Param { name: strip_bang(t.text), negated: is_negated(t), items },
            }),
            diags: parent.diags + diags,
            ..parent
        }
    }
}

pub open spec fn complete_region_spec(frames: Seq<FrameView>, t: TokenView, items: Seq<ItemView>, diags: Seq<DiagnosticView>) -> Seq<FrameView> {
    set_top(frames, complete_region_frame(frames.last(), t, items, diags))
}

/// The highest frame that reads a conditional region, below `n`.
pub open spec fn last_region(frames: Seq<FrameView>, n: int) -> Option<int>
    decreases n,
{
    if n <= 0 {
        None
    } else if frames[n - 1].attach is Region {
        Some(n - 1)
    } else {
        last_region(frames, n - 1)
    }
}

/// The outcome of one loop iteration of the frame machine.
pub enum Iteration {
    Continue(Seq<FrameView>),
    Finished(Result<(Seq<ItemView>, Seq<DiagnosticView>), ErrorView>),
}

#[verifier::opaque]
pub open spec fn iterate_spec(frames: Seq<FrameView>, file: Seq<u8>) -> Iteration {
    if frames.len() == 0 {
        Iteration::Finished(Err(limit_error(file, frames[0].end)))
    } else {
        match advance_spec(frames, file) {
            Err(e) => if e.kind == ErrorKind::NestingLimit {
                Iteration::Finished(Err(e))
            } else {
                match last_region(frames, frames.len() as int) {
                    None => Iteration::Finished(Err(e)),
                    Some(i) => {
                        let kept = frames.take(i);
                        let parent = kept.last();
                        Iteration::Continue(set_top(kept, FrameView {
                            items: parent.items.push(region_text_item(frames[i].attach->Region_0)),
                            ..parent
                        }))
                    },
                }
            },
            Ok(f) => if f.len() == 0 || f.last().toks.len() > 0 || f.last().attach is Container {
                Iteration::Continue(f)
            } else {
                let complete = f.last();
                match complete.attach {
                    AttachView::Region(t) => Iteration::Continue(
                        complete_region_spec(f.drop_last(), t, complete.items, complete.diags),
                    ),
                    _ => Iteration::Finished(Ok((complete.items, complete.diags))),
                }
            },
        }
    }
}

pub open spec fn frames_weight(frames: Seq<FrameView>) -> int
    decreases frames.len(),
{
    if frames.len() == 0 {
        0
    } else {
        frames_weight(frames.drop_last()) + tokens_weight(frames.last().toks)
    }
}

proof fn lemma_tokens_weight_nonneg(s: Seq<TokenView>)
    ensures
        tokens_weight(s) >= 0,
        s.len() > 0 ==> tokens_weight(s) == token_weight(s[0]) + tokens_weight(s.drop_first()),
    decreases s.len(),
{
    if s.len() > 0 {
        lemma_tokens_weight_nonneg(s.drop_first());
    }
}

pub proof fn lemma_frames_weight_nonneg(frames: Seq<FrameView>)
    ensures
        frames_weight(frames) >= 0,
    decreases frames.len(),
{
    if frames.len() > 0 {
        lemma_frames_weight_nonneg(frames.drop_last());
        lemma_tokens_weight_nonneg(frames.last().toks);
    }
}

proof fn lemma_set_top_weight(frames: Seq<FrameView>, f: FrameView)
    requires
        frames.len() > 0,
    ensures
        frames_weight(set_top(frames, f)) == frames_weight(frames.drop_last()) + tokens_weight(f.toks),
        set_top(frames, f).len() == frames.len(),
{
    assert(set_top(frames, f).drop_last() =~= frames.drop_last());
}

proof fn lemma_push_weight(frames: Seq<FrameView>, f: FrameView)
    ensures
        frames_weight(frames.push(f)) == frames_weight(frames) + tokens_weight(f.toks),
{
    assert(frames.push(f).drop_last() =~= frames);
}

proof fn lemma_take_weight(frames: Seq<FrameView>, i: int)
    requires
        0 <= i <= frames.len(),
    ensures
        frames_weight(frames.take(i)) <= frames_weight(frames),
    decreases frames.len(),
{
    if i < frames.len() {
        lemma_take_weight(frames.drop_last(), i);
        assert(frames.drop_last().take(i) =~= frames.take(i));
        lemma_tokens_weight_nonneg(frames.last().toks);
    } else {
        assert(frames.take(i) =~= frames);
    }
}

proof fn lemma_push_container_weight(frames: Seq<FrameView>, file: Seq<u8>, attach: AttachView)
    requires
        frames.len() > 0,
    ensures
        push_container_spec(frames, file, attach) matches Ok(f) ==> frames_weight(f) == frames_weight(frames),
{
    let parent = frames.last();
    lemma_set_top_weight(frames, FrameView { toks: Seq::empty(), ..parent });
    let s1 = set_top(frames, FrameView { toks: Seq::empty(), ..parent });
    lemma_push_weight(s1, FrameView {
        toks: parent.toks,
        items: Seq::empty(),
        attach,
        diags: Seq::empty(),
        depth: parent.depth + 1,
        end: parent.end,
    });
}

proof fn lemma_complete_container_weight(frames: Seq<FrameView>, close: Option<TokenView>)
    requires
        frames.len() > 0,
    ensures
        frames_weight(complete_container_spec(frames, close)) <= frames_weight(frames),
        complete_container_spec(frames, close).len() < frames.len() || frames.last().attach !is Container,
{
    lemma_frames_weight_nonneg(frames);
    if frames.len() >= 2 && frames.last().attach is Container {
        let rest = frames.drop_last();
        let child = frames.last();
        let parent = rest.last();
        lemma_tokens_weight_nonneg(parent.toks);
        let nf = FrameView { toks: child.toks, ..parent };
        lemma_frames_weight_nonneg(rest.drop_last());
        let c = complete_container_spec(frames, close);
        assert(c.len() == rest.len());
        assert(c.drop_last() =~= rest.drop_last());
        assert(frames_weight(c) == frames_weight(rest.drop_last()) + tokens_weight(child.toks));
        assert(frames_weight(frames) == frames_weight(rest) + tokens_weight(child.toks));
        assert(frames_weight(rest) == frames_weight(rest.drop_last()) + tokens_weight(parent.toks));
    }
}

proof fn lemma_advance_weight(frames: Seq<FrameView>, file: Seq<u8>)
    requires
        frames.len() > 0,
    ensures
        advance_spec(frames, file) matches Ok(f) ==> {
            if frames.last().toks.len() > 0 {
                frames_weight(f) < frames_weight(frames)
            } else {
                frames_weight(f) <= frames_weight(frames) && (f.len() < frames.len() || f == frames)
            }
        },
{
    let top = frames.last();
    lemma_frames_weight_nonneg(frames.drop_last());
    lemma_tokens_weight_nonneg(top.toks);
    if top.toks.len() == 0 {
        if top.attach is Container {
            lemma_complete_container_weight(frames, None);
        }
    } else {
        let first = top.toks[0];
        let rest = top.toks.drop_first();
        let top1 = FrameView { toks: rest, ..top };
        let frames1 = set_top(frames, top1);
        lemma_set_top_weight(frames, top1);
        lemma_tokens_weight_nonneg(rest);
        if rest.len() > 0 {
            lemma_tokens_weight_nonneg(rest.drop_first());
            if rest.drop_first().len() > 0 {
                lemma_tokens_weight_nonneg(rest.drop_first().drop_first());
                if rest.drop_first().drop_first().len() > 0 {
                    lemma_tokens_weight_nonneg(rest.drop_first().drop_first().drop_first());
                }
            }
        }
        match advance_spec(frames, file) {
            Ok(f) => {
                if first.kind == Kind::Close && top.attach is Container {
                    lemma_complete_container_weight(frames1, Some(first));
                } else if first.kind == Kind::Close {
                } else if first.kind == Kind::Open {
                    lemma_push_container_weight(frames1, file, AttachView::Container { entry: None, header: None, span: first.span });
                } else if first.kind == Kind::Region {
                    if let Ok(ts) = lex(first.body, first.body_start as int, file, first.span.line as int) {
                        lemma_lex_weight(first.body, first.body_start as int, file, 0, first.span.line as int);
                        lemma_push_weight(frames1, FrameView {
                            toks: ts,
                            items: Seq::empty(),
                            attach: AttachView::Region(first),
                            diags: Seq::empty(),
                            depth: top.depth + 1,
                            end: first.span,
                        });
                    }
                } else if first.kind == Kind::Word && rest.len() > 0 && rest[0].kind == Kind::Op {
                    let rest2 = rest.drop_first();
                    let value = rest2[0];
                    let rest3 = rest2.drop_first();
                    let header = value.kind == Kind::Word && !value.quoted && rest3.len() > 0
                        && rest3[0].kind == Kind::Open && rest3[0].span.line == value.span.line;
                    let rest4 = if header { rest3.drop_first() } else { rest3 };
                    if value.kind == Kind::Open || header {
                        lemma_set_top_weight(frames, FrameView { toks: rest4, ..top });
                        let op = op_of(rest[0].text).unwrap();
                        lemma_push_container_weight(
                            set_top(frames, FrameView { toks: rest4, ..top }),
                            file,
                            AttachView::Container {
                                entry: Some((first.text, op)),
                                header: if header { Some(value.text) } else { None },
                                span: first.span,
                            },
                        );
                    } else {
                        lemma_set_top_weight(frames, FrameView { toks: rest3, ..top });
                    }
                } else if first.kind == Kind::Word {
                    let same_line_block = rest.len() > 0 && rest[0].kind == Kind::Open && rest[0].span.line == first.span.line;
                    let entry_body = rest.len() > 1 && rest[1].kind == Kind::Word && rest.len() > 2 && rest[2].kind == Kind::Op;
                    if same_line_block && (top.attach is Root || entry_body) {
                        let t2 = FrameView {
                            toks: rest.drop_first(),
                            diags: top.diags.push(DiagnosticView { kind: Repair::OperatorLessEntry, span: first.span, text: first.text }),
                            ..top
                        };
                        lemma_set_top_weight(frames, t2);
                        lemma_push_container_weight(
                            set_top(frames, t2),
                            file,
                            AttachView::Container { entry: Some((first.text, Operator::Assign)), header: None, span: first.span },
                        );
                    }
                }
            },
            Err(_) => {},
        }
    }
}

proof fn lemma_complete_region_weight(frames: Seq<FrameView>, t: TokenView, items: Seq<ItemView>, diags: Seq<DiagnosticView>)
    ensures
        frames_weight(complete_region_spec(frames, t, items, diags)) == frames_weight(frames),
        complete_region_spec(frames, t, items, diags).len() == frames.len(),
{
    if frames.len() > 0 {
        lemma_set_top_weight(frames, complete_region_frame(frames.last(), t, items, diags));
        assert(frames_weight(frames) == frames_weight(frames.drop_last()) + tokens_weight(frames.last().toks));
    }
}

pub proof fn lemma_last_region(frames: Seq<FrameView>, n: int)
    requires
        0 <= n <= frames.len(),
    ensures
        last_region(frames, n) matches Some(i) ==> 0 <= i < n && frames[i].attach is Region,
    decreases n,
{
    if n > 0 {
        lemma_last_region(frames, n - 1);
    }
}

/// Each iteration of the frame machine lowers (unread work, open frames) lexicographically.
pub proof fn lemma_iterate_decreases(frames: Seq<FrameView>, file: Seq<u8>)
    ensures
        iterate_spec(frames, file) matches Iteration::Continue(f) ==> frames_weight(f) < frames_weight(frames)
            || (frames_weight(f) == frames_weight(frames) && f.len() < frames.len()),
        iterate_spec(frames, file) matches Iteration::Continue(f) ==> frames_weight(f) >= 0,
{
    reveal(iterate_spec);
    if frames.len() > 0 {
        lemma_advance_weight(frames, file);
        lemma_frames_weight_nonneg(frames);
        match advance_spec(frames, file) {
            Err(e) => {
                lemma_last_region(frames, frames.len() as int);
                if let Some(i) = last_region(frames, frames.len() as int) {
                    let kept = frames.take(i);
                    lemma_take_weight(frames, i);
                    if kept.len() > 0 {
                        let parent = kept.last();
                        lemma_set_top_weight(kept, FrameView {
                            items: parent.items.push(region_text_item(frames[i].attach->Region_0)),
                            ..parent
                        });
                        lemma_take_weight(kept, kept.len() - 1);
                        assert(kept.take(kept.len() - 1) =~= kept.drop_last());
                    }
                    lemma_frames_weight_nonneg(kept.drop_last());
                    lemma_tokens_weight_nonneg(kept.last().toks);
                }
            },
            Ok(f) => {
                lemma_frames_weight_nonneg(f);
                if !(f.len() == 0 || f.last().toks.len() > 0 || f.last().attach is Container) {
                    let complete = f.last();
                    if let AttachView::Region(t) = complete.attach {
                        lemma_complete_region_weight(f.drop_last(), t, complete.items, complete.diags);
                        lemma_tokens_weight_nonneg(complete.toks);
                        lemma_frames_weight_nonneg(f.drop_last());
                    }
                }
            },
        }
    }
}

/// Runs the frame machine to completion.
pub open spec fn run_spec(frames: Seq<FrameView>, file: Seq<u8>) -> Result<(Seq<ItemView>, Seq<DiagnosticView>), ErrorView>
    decreases frames_weight(frames), frames.len(),
{
    proof {
        lemma_iterate_decreases(frames, file);
        lemma_frames_weight_nonneg(frames);
    }
    match iterate_spec(frames, file) {
        Iteration::Continue(f) => run_spec(f, file),
        Iteration::Finished(r) => r,
    }
}

/// The shape every reachable frame stack keeps: the root at the bottom, bounded depths, and
/// region tokens whose bodies fit the source bounds.
pub open spec fn frame_ok(f: FrameView) -> bool {
    &&& 0 <= f.depth <= MAX_NESTING_DEPTH
    &&& forall|j: int| 0 <= j < f.toks.len() ==> token_fits(#[trigger] f.toks[j])
}

pub open spec fn frames_inv(frames: Seq<FrameView>) -> bool {
    &&& frames.len() >= 1
    &&& frames[0].attach is Root
    &&& forall|i: int| 0 < i < frames.len() ==> !(#[trigger] frames[i].attach is Root)
    &&& forall|i: int| 0 <= i < frames.len() ==> frame_ok(#[trigger] frames[i])
}

/// The whole parse: strip a leading byte-order mark, read the tokens, and run the frame machine.
pub open spec fn source_text(src: Seq<u8>) -> (Seq<u8>, int) {
    if src.len() >= 3 && src[0] == 0xEFu8 && src[1] == 0xBBu8 && src[2] == 0xBFu8 {
        (src.subrange(3, src.len() as int), 3)
    } else {
        (src, 0)
    }
}

pub open spec fn end_span(src: Seq<u8>) -> Span {
    let l = (newlines(src, 0, src.len() as int) + 1) as usize;
    Span { start: src.len() as usize, end: src.len() as usize, line: l, end_line: l }
}

pub open spec fn root_frame(toks: Seq<TokenView>, end: Span) -> FrameView {
    FrameView { toks, items: Seq::empty(), attach: AttachView::Root, diags: Seq::empty(), depth: 0, end }
}

#[verifier::opaque]
pub open spec fn spec_parse(src: Seq<u8>, file: Seq<u8>) -> Result<DocumentView, ErrorView> {
    let (text, base) = source_text(src);
    match lex(text, base, file, 1) {
        Err(e) => Err(e),
        Ok(toks) => match run_spec(seq![root_frame(toks, end_span(src))], file) {
            Ok((items, diags)) => Ok(DocumentView { file, items, diagnostics: diags }),
            Err(e) => Err(e),
        },
    }
}

enum Attach {
    Root,
    Container { entry: Option<(String, Operator)>, header: Option<String>, span: Span },
    Region(Token),
}

struct Frame {
    cursor: Cursor<Token>,
    items: Vec<Item>,
    attach: Attach,
    diagnostics: Vec<Diagnostic>,
    depth: usize,
    end: Span,
}

spec fn attach_view(a: Attach) -> AttachView {
    match a {
        Attach::Root => AttachView::Root,
        Attach::Container { entry, header, span } => AttachView::Container {
            entry: match entry {
                Some((k, op)) => Some((bytes(k), op)),
                None => None,
            },
            header: match header {
                Some(h) => Some(bytes(h)),
                None => None,
            },
            span,
        },
        Attach::Region(t) => AttachView::Region(t@),
    }
}

spec fn diags_view(d: Seq<Diagnostic>) -> Seq<DiagnosticView> {
    d.map_values(|x: Diagnostic| x@)
}

spec fn frame_view(f: Frame) -> FrameView {
    FrameView {
        toks: tokens_view(f.cursor.rest()),
        items: items_view(f.items@),
        attach: attach_view(f.attach),
        diags: diags_view(f.diagnostics@),
        depth: f.depth as int,
        end: f.end,
    }
}

spec fn frames_view(v: Seq<Frame>) -> Seq<FrameView> {
    v.map_values(|f: Frame| frame_view(f))
}

proof fn lemma_frames_view_push(v: Seq<Frame>, f: Frame)
    ensures
        frames_view(v.push(f)) == frames_view(v).push(frame_view(f)),
{
    assert(frames_view(v.push(f)) =~= frames_view(v).push(frame_view(f)));
}

proof fn lemma_frames_view_drop_last(v: Seq<Frame>)
    requires
        v.len() > 0,
    ensures
        frames_view(v.drop_last()) == frames_view(v).drop_last(),
        frames_view(v).last() == frame_view(v.last()),
{
    assert(frames_view(v.drop_last()) =~= frames_view(v).drop_last());
}

proof fn lemma_diags_view_push(d: Seq<Diagnostic>, x: Diagnostic)
    ensures
        diags_view(d.push(x)) == diags_view(d).push(x@),
{
    assert(diags_view(d.push(x)) =~= diags_view(d).push(x@));
}

proof fn lemma_diags_view_append(d: Seq<Diagnostic>, e: Seq<Diagnostic>)
    ensures
        diags_view(d + e) == diags_view(d) + diags_view(e),
{
    assert(diags_view(d + e) =~= diags_view(d) + diags_view(e));
}

proof fn lemma_tokens_view_drop_first(s: Seq<Token>)
    requires
        s.len() > 0,
    ensures
        tokens_view(s.drop_first()) == tokens_view(s).drop_first(),
        tokens_view(s)[0] == s[0]@,
{
    assert(tokens_view(s.drop_first()) =~= tokens_view(s).drop_first());
}

impl Frame {
    fn new(tokens: Vec<Token>, attach: Attach, depth: usize, end: Span) -> (f: Self)
        ensures
            frame_view(f) == (FrameView {
                toks: tokens_view(tokens@),
                items: Seq::empty(),
                attach: attach_view(attach),
                diags: Seq::empty(),
                depth: depth as int,
                end,
            }),
    {
        let f = Self {
            cursor: Cursor::new(tokens),
            items: Vec::new(),
            attach,
            diagnostics: Vec::new(),
            depth,
            end,
        };
        proof {
            lemma_items_view(f.items@);
            assert(items_view(f.items@) =~= Seq::<ItemView>::empty());
            assert(diags_view(f.diagnostics@) =~= Seq::<DiagnosticView>::empty());
        }
        f
    }
}

fn limit(file: &str, span: Span) -> (r: SyntaxError)
    ensures
        r@ == limit_error(file.spec_bytes(), span),
{
    SyntaxError { kind: ErrorKind::NestingLimit, ..error(file, span, "Nesting exceeds supported limit") }
}

fn as_scalar(token: &Token) -> (r: Scalar)
    ensures
        r@ == token_scalar(token@),
{
    match token.kind {
        Kind::Math => Scalar::Math { source: token.text.clone() },
        _ => if token.quoted {
            Scalar::String { value: token.text.clone(), quoted: true }
        } else {
            classify_unquoted(token.text.as_str())
        },
    }
}

fn region_name(token: &Token) -> (r: (String, bool))
    ensures
        bytes(r.0) == strip_bang(token@.text),
        r.1 == is_negated(token@),
{
    let t = token.text.as_str();
    let b = t.as_bytes();
    if b.len() > 0 && b[0] == 33 {
        proof {
            vstd::utf8::encode_utf8_valid_utf8(t@);
            crate::text::lemma_ascii_next(b@, 0);
        }
        (crate::text::substring(t, 1, b.len()), true)
    } else {
        (token.text.clone(), false)
    }
}

fn region_text(token: Token) -> (r: Item)
    ensures
        r@ == region_text_item(token@),
{
    let (name, negated) = region_name(&token);
    Item { span: Some(token.span), kind: ItemKind::ParamText { name, negated, text: token.body } }
}

fn needs_verbatim_body(diagnostics: &Vec<Diagnostic>) -> (r: bool)
    ensures
        r == needs_verbatim(diags_view(diagnostics@)),
{
    let ghost d = diags_view(diagnostics@);
    let mut i: usize = 0;
    while i < diagnostics.len()
        invariant
            i <= diagnostics@.len(),
            d == diags_view(diagnostics@),
            forall|j: int| 0 <= j < i ==> d[j].kind == Repair::OperatorLessEntry,
        decreases diagnostics@.len() - i,
    {
        if diagnostics[i].kind != Repair::OperatorLessEntry {
            assert(d[i as int].kind != Repair::OperatorLessEntry);
            return true;
        }
        i += 1;
    }
    false
}

fn complete_region(parent: &mut Frame, token: Token, items: Vec<Item>, diagnostics: Vec<Diagnostic>)
    ensures
        frame_view(*final(parent)) == complete_region_frame(
            frame_view(*old(parent)),
            token@,
            items_view(items@),
            diags_view(diagnostics@),
        ),
{
    let mut diagnostics = diagnostics;
    if needs_verbatim_body(&diagnostics) {
        let ghost before = parent.items@;
        let item = region_text(token);
        parent.items.push(item);
        proof {
            lemma_items_view_push(before, item);
        }
        return;
    }
    let (name, negated) = region_name(&token);
    let item = Item { span: Some(token.span), kind: ItemKind::Param { name, negated, items } };
    let ghost before = parent.items@;
    let ghost d0 = parent.diagnostics@;
    let ghost d1 = diagnostics@;
    parent.items.push(item);
    parent.diagnostics.append(&mut diagnostics);
    proof {
        lemma_items_view_push(before, item);
        lemma_diags_view_append(d0, d1);
    }
}

proof fn lemma_set_top_push(f: Seq<FrameView>, x: FrameView)
    requires
        f.len() > 0,
    ensures
        set_top(f, x) == f.drop_last().push(x),
{
    assert(set_top(f, x) =~= f.drop_last().push(x));
}

fn brace_text() -> (r: String)
    ensures
        bytes(r) == seq![123u8],
{
    proof {
        reveal_strlit("{");
        crate::text::lemma_lit_bytes("{", seq![123u8]);
    }
    "{".to_owned()
}

fn complete_container(frames: &mut Vec<Frame>, close: Option<Token>)
    requires
        old(frames)@.len() >= 2,
        old(frames)@.last().attach is Container,
    ensures
        frames_view(final(frames)@) == complete_container_spec(
            frames_view(old(frames)@),
            match close {
                Some(t) => Some(t@),
                None => None,
            },
        ),
{
    let ghost f0 = frames_view(frames@);
    let ghost v0 = frames@;
    let child = frames.pop().unwrap();
    proof {
        lemma_frames_view_drop_last(v0);
        lemma_frames_view_drop_last(v0.drop_last());
    }
    let Frame { cursor, items, attach, diagnostics, depth: _, end: child_end } = child;
    let (entry, header, span) = match attach {
        Attach::Container { entry, header, span } => (entry, header, span),
        _ => {
            proof {
                assert(false);
            }
            return;
        },
    };
    let mut diagnostics = diagnostics;
    let end = match &close {
        Some(t) => t.span,
        None => child_end,
    };
    if close.is_none() {
        let ghost d0 = diagnostics@;
        let d = Diagnostic { kind: Repair::UnclosedAtEof, span, text: brace_text() };
        diagnostics.push(d);
        proof {
            lemma_diags_view_push(d0, d);
        }
    }
    let body = Container { header, items };
    let kind = match entry {
        Some((key, op)) => ItemKind::Entry(Entry { key, op, value: Value::Container(body) }),
        None => ItemKind::Container(body),
    };
    let item = Item { kind, span: Some(span.through(end)) };
    let mut parent = frames.pop().unwrap();
    let ghost pi = parent.items@;
    let ghost pd = parent.diagnostics@;
    let ghost cd = diagnostics@;
    parent.items.push(item);
    parent.diagnostics.append(&mut diagnostics);
    parent.cursor = cursor;
    proof {
        lemma_items_view_push(pi, item);
        lemma_diags_view_append(pd, cd);
    }
    let ghost v1 = frames@;
    frames.push(parent);
    proof {
        lemma_frames_view_push(v1, parent);
        lemma_set_top_push(f0.drop_last(), frame_view(parent));
    }
}

fn push_container(frames: &mut Vec<Frame>, file: &str, attach: Attach) -> (r: Result<(), SyntaxError>)
    requires
        old(frames)@.len() >= 1,
    ensures
        match push_container_spec(frames_view(old(frames)@), file.spec_bytes(), attach_view(attach)) {
            Ok(f) => r is Ok && frames_view(final(frames)@) == f,
            Err(e) => r matches Err(x) && x@ == e,
        },
{
    let ghost f0 = frames_view(frames@);
    let ghost v0 = frames@;
    let mut parent = frames.pop().unwrap();
    proof {
        lemma_frames_view_drop_last(v0);
    }
    if parent.depth >= MAX_NESTING_DEPTH {
        let span = match parent.cursor.nth(0) {
            Some(t) => t.span,
            None => parent.end,
        };
        proof {
            if parent.cursor.rest().len() > 0 {
                assert(tokens_view(parent.cursor.rest())[0] == parent.cursor.rest()[0]@);
            }
        }
        return Err(limit(file, span));
    }
    let depth = parent.depth + 1;
    let cursor = parent.cursor;
    parent.cursor = Cursor::new(Vec::new());
    let end = parent.end;
    let ghost v1 = frames@;
    frames.push(parent);
    let child = Frame { cursor, items: Vec::new(), attach, diagnostics: Vec::new(), depth, end };
    let ghost v2 = frames@;
    frames.push(child);
    proof {
        assert(tokens_view(parent.cursor.rest()) =~= Seq::<TokenView>::empty());
        lemma_frames_view_push(v1, parent);
        lemma_frames_view_push(v2, child);
        lemma_set_top_push(f0, frame_view(parent));
        lemma_items_view(child.items@);
        assert(items_view(child.items@) =~= Seq::<ItemView>::empty());
        assert(diags_view(child.diagnostics@) =~= Seq::<DiagnosticView>::empty());
    }
    Ok(())
}

pub open spec fn with_first(top: FrameView, t: TokenView) -> FrameView {
    FrameView { toks: seq![t] + top.toks, ..top }
}

/// After a failed step, every frame below the top is untouched and the top still reads the same body.
pub open spec fn kept_below_top(f: Seq<FrameView>, g: Seq<FrameView>) -> bool {
    &&& g.len() == f.len()
    &&& forall|i: int| 0 <= i < f.len() - 1 ==> #[trigger] g[i] == f[i]
    &&& g.last().attach == f.last().attach
}

proof fn lemma_with_first(top: Frame, t: Token, before: Seq<Token>)
    requires
        before.len() > 0,
        before[0] == t,
        top.cursor.rest() == before.drop_first(),
    ensures
        with_first(frame_view(top), t@).toks == tokens_view(before),
{
    lemma_tokens_view_drop_first(before);
    assert(seq![t@] + tokens_view(before.drop_first()) =~= tokens_view(before));
}

fn advance_entry(frames: &mut Vec<Frame>, top: Frame, first: Token, file: &str) -> (r: Result<(), SyntaxError>)
    requires
        first.kind == Kind::Word,
        top.cursor.rest().len() > 0,
        top.cursor.rest()[0].kind == Kind::Op,
    ensures
        ({
            let f = frames_view(old(frames)@).push(with_first(frame_view(top), first@));
            match advance_spec(f, file.spec_bytes()) {
                Ok(g) => r is Ok && frames_view(final(frames)@) == g,
                Err(e) => r matches Err(x) && x@ == e && (e.kind != ErrorKind::NestingLimit ==> kept_below_top(f, frames_view(final(frames)@))),
            }
        }),
{
    let ghost v0 = frames@;
    let ghost t0 = frame_view(top);
    let ghost f = frames_view(v0).push(with_first(t0, first@));
    let ghost rest = t0.toks;
    let mut top = top;
    proof {
        lemma_frames_view_push(v0, top);
        assert(f.last() == with_first(t0, first@));
        assert(f.last().toks.drop_first() =~= rest);
        assert(f.last().toks[0] == first@);
        lemma_set_top_push(f, t0);
        assert(f.drop_last() =~= frames_view(v0));
        lemma_tokens_view_drop_first(top.cursor.rest());
    }
    let op_token = top.cursor.take().unwrap();
    let ghost rest2 = tokens_view(top.cursor.rest());
    assert(rest2 == rest.drop_first());
    let op = match Operator::parse(op_token.text.as_str()) {
        None => {
            frames.push(top);
            proof {
                lemma_frames_view_push(v0, top);
            }
            return Err(error(file, op_token.span, "Unsupported operator"));
        },
        Some(op) => op,
    };
    proof {
        if top.cursor.rest().len() > 0 {
            lemma_tokens_view_drop_first(top.cursor.rest());
        }
    }
    let value = match top.cursor.take() {
        None => {
            frames.push(top);
            proof {
                lemma_frames_view_push(v0, top);
            }
            return Err(error(file, op_token.span, "Missing value"));
        },
        Some(v) => v,
    };
    let ghost rest3 = tokens_view(top.cursor.rest());
    assert(rest3 == rest2.drop_first());
    let header = value.kind == Kind::Word && !value.quoted && match top.cursor.peek() {
        Some(t) => t.kind == Kind::Open && t.span.line == value.span.line,
        None => false,
    };
    proof {
        if rest3.len() > 0 {
            assert(rest3[0] == top.cursor.rest()[0]@);
        }
    }
    if value.kind == Kind::Open || header {
        let header = if header {
            proof {
                lemma_tokens_view_drop_first(top.cursor.rest());
            }
            top.cursor.take();
            Some(value.text)
        } else {
            None
        };
        let ghost v1 = frames@;
        frames.push(top);
        proof {
            lemma_frames_view_push(v1, top);
            lemma_set_top_push(f, frame_view(top));
        }
        push_container(
            frames,
            file,
            Attach::Container { entry: Some((first.text, op)), header, span: first.span },
        )
    } else if value.kind == Kind::Word || value.kind == Kind::Math {
        let scalar = as_scalar(&value);
        let item = Item {
            span: Some(first.span.through(value.span)),
            kind: ItemKind::Entry(Entry { key: first.text, op, value: Value::Scalar(scalar) }),
        };
        let ghost pi = top.items@;
        top.items.push(item);
        proof {
            lemma_items_view_push(pi, item);
        }
        let ghost v1 = frames@;
        frames.push(top);
        proof {
            lemma_frames_view_push(v1, top);
            lemma_set_top_push(f, frame_view(top));
        }
        Ok(())
    } else {
        frames.push(top);
        proof {
            lemma_frames_view_push(v0, top);
        }
        Err(error(file, value.span, "Expected a value"))
    }
}

fn advance_word(frames: &mut Vec<Frame>, top: Frame, first: Token, file: &str) -> (r: Result<(), SyntaxError>)
    requires
        first.kind == Kind::Word,
        !(top.cursor.rest().len() > 0 && top.cursor.rest()[0].kind == Kind::Op),
    ensures
        ({
            let f = frames_view(old(frames)@).push(with_first(frame_view(top), first@));
            match advance_spec(f, file.spec_bytes()) {
                Ok(g) => r is Ok && frames_view(final(frames)@) == g,
                Err(e) => r matches Err(x) && x@ == e && e.kind == ErrorKind::NestingLimit,
            }
        }),
{
    let ghost v0 = frames@;
    let ghost t0 = frame_view(top);
    let ghost f = frames_view(v0).push(with_first(t0, first@));
    let ghost rest = t0.toks;
    let mut top = top;
    proof {
        lemma_frames_view_push(v0, top);
        assert(f.last() == with_first(t0, first@));
        assert(f.last().toks.drop_first() =~= rest);
        assert(f.last().toks[0] == first@);
        lemma_set_top_push(f, t0);
        assert(f.drop_last() =~= frames_view(v0));
        if rest.len() > 0 {
            assert(rest[0] == top.cursor.rest()[0]@);
        }
        if rest.len() > 1 {
            assert(rest[1] == top.cursor.rest()[1]@);
        }
        if rest.len() > 2 {
            assert(rest[2] == top.cursor.rest()[2]@);
        }
    }
    let same_line_block = match top.cursor.peek() {
        Some(t) => t.kind == Kind::Open && t.span.line == first.span.line,
        None => false,
    };
    let entry_body = (match top.cursor.nth(1) {
        Some(t) => t.kind == Kind::Word,
        None => false,
    }) && (match top.cursor.nth(2) {
        Some(t) => t.kind == Kind::Op,
        None => false,
    });
    let at_root = match top.attach {
        Attach::Root => true,
        _ => false,
    };
    if same_line_block && (at_root || entry_body) {
        proof {
            lemma_tokens_view_drop_first(top.cursor.rest());
        }
        top.cursor.take();
        let d = Diagnostic { kind: Repair::OperatorLessEntry, span: first.span, text: first.text.clone() };
        let ghost pd = top.diagnostics@;
        top.diagnostics.push(d);
        proof {
            lemma_diags_view_push(pd, d);
        }
        let ghost v1 = frames@;
        frames.push(top);
        proof {
            lemma_frames_view_push(v1, top);
            lemma_set_top_push(f, frame_view(top));
        }
        push_container(
            frames,
            file,
            Attach::Container { entry: Some((first.text, Operator::Assign)), header: None, span: first.span },
        )
    } else {
        let item = Item { span: Some(first.span), kind: ItemKind::Scalar(as_scalar(&first)) };
        let ghost pi = top.items@;
        top.items.push(item);
        proof {
            lemma_items_view_push(pi, item);
        }
        let ghost v1 = frames@;
        frames.push(top);
        proof {
            lemma_frames_view_push(v1, top);
            lemma_set_top_push(f, frame_view(top));
        }
        Ok(())
    }
}

fn advance_frame(frames: &mut Vec<Frame>, file: &str) -> (r: Result<(), SyntaxError>)
    requires
        frames_inv(frames_view(old(frames)@)),
    ensures
        match advance_spec(frames_view(old(frames)@), file.spec_bytes()) {
            Ok(g) => r is Ok && frames_view(final(frames)@) == g,
            Err(e) => r matches Err(x) && x@ == e && (e.kind != ErrorKind::NestingLimit ==> kept_below_top(
                frames_view(old(frames)@),
                frames_view(final(frames)@),
            )),
        },
{
    let ghost v0 = frames@;
    let ghost f = frames_view(v0);
    let mut top = frames.pop().unwrap();
    proof {
        lemma_frames_view_drop_last(v0);
    }
    let ghost before = top.cursor.rest();
    let ghost t0 = frame_view(top);
    let first = match top.cursor.take() {
        None => {
            let is_container = match top.attach {
                Attach::Container { .. } => true,
                _ => false,
            };
            let ghost v1 = frames@;
            frames.push(top);
            proof {
                lemma_frames_view_push(v1, top);
                assert(frames_view(frames@) =~= f);
                if is_container {
                    assert(f.len() - 1 != 0);
                }
            }
            if is_container {
                complete_container(frames, None);
            }
            return Ok(());
        },
        Some(t) => t,
    };
    proof {
        lemma_with_first(top, first, before);
        assert(f =~= frames_view(frames@).push(with_first(frame_view(top), first@)));
        lemma_tokens_view_drop_first(before);
        lemma_set_top_push(f, frame_view(top));
    }
    match first.kind {
        Kind::Close => {
            let is_container = match top.attach {
                Attach::Container { .. } => true,
                _ => false,
            };
            if is_container {
                let ghost v1 = frames@;
                frames.push(top);
                proof {
                    lemma_frames_view_push(v1, top);
                    assert(f.len() - 1 != 0);
                }
                complete_container(frames, Some(first));
            } else {
                let d = Diagnostic { kind: Repair::StrayClosingBrace, span: first.span, text: first.text };
                let ghost pd = top.diagnostics@;
                top.diagnostics.push(d);
                proof {
                    lemma_diags_view_push(pd, d);
                }
                let ghost v1 = frames@;
                frames.push(top);
                proof {
                    lemma_frames_view_push(v1, top);
                    lemma_set_top_push(f, frame_view(top));
                }
            }
            Ok(())
        },
        Kind::Open => {
            let ghost v1 = frames@;
            frames.push(top);
            proof {
                lemma_frames_view_push(v1, top);
            }
            push_container(frames, file, Attach::Container { entry: None, header: None, span: first.span })
        },
        Kind::Bracket | Kind::Op => {
            let ghost v1 = frames@;
            frames.push(top);
            proof {
                lemma_frames_view_push(v1, top);
            }
            Err(error(file, first.span, "Expected a key or value"))
        },
        Kind::Region => {
            if top.depth >= MAX_NESTING_DEPTH {
                frames.push(top);
                return Err(limit(file, first.span));
            }
            let depth = top.depth + 1;
            proof {
                assert(token_fits(f.last().toks[0]));
            }
            match tokenize(first.body.as_str(), file, first.body_start, first.span.line) {
                Ok(tokens) => {
                    let end = first.span;
                    let ghost v1 = frames@;
                    frames.push(top);
                    let frame = Frame::new(tokens, Attach::Region(first), depth, end);
                    let ghost v2 = frames@;
                    frames.push(frame);
                    proof {
                        lemma_frames_view_push(v1, top);
                        lemma_frames_view_push(v2, frame);
                    }
                    Ok(())
                },
                Err(_) => {
                    let item = region_text(first);
                    let ghost pi = top.items@;
                    top.items.push(item);
                    proof {
                        lemma_items_view_push(pi, item);
                    }
                    let ghost v1 = frames@;
                    frames.push(top);
                    proof {
                        lemma_frames_view_push(v1, top);
                        lemma_set_top_push(f, frame_view(top));
                    }
                    Ok(())
                },
            }
        },
        Kind::Word => {
            let op_next = match top.cursor.peek() {
                Some(t) => t.kind == Kind::Op,
                None => false,
            };
            if op_next {
                advance_entry(frames, top, first, file)
            } else {
                advance_word(frames, top, first, file)
            }
        },
        Kind::Math => {
            let item = Item { span: Some(first.span), kind: ItemKind::Scalar(as_scalar(&first)) };
            let ghost pi = top.items@;
            top.items.push(item);
            proof {
                lemma_items_view_push(pi, item);
            }
            let ghost v1 = frames@;
            frames.push(top);
            proof {
                lemma_frames_view_push(v1, top);
                lemma_set_top_push(f, frame_view(top));
            }
            Ok(())
        },
    }
}

proof fn lemma_inv_set_top(frames: Seq<FrameView>, x: FrameView)
    requires
        frames_inv(frames),
        frame_ok(x),
        x.attach is Root <==> frames.len() == 1,
    ensures
        frames_inv(set_top(frames, x)),
{
    let g = set_top(frames, x);
    assert forall|i: int| 0 <= i < g.len() implies frame_ok(#[trigger] g[i]) by {
        if i < frames.len() - 1 {
            assert(g[i] == frames[i]);
        }
    }
    assert forall|i: int| 0 < i < g.len() implies !(#[trigger] g[i].attach is Root) by {
        if i < frames.len() - 1 {
            assert(g[i] == frames[i]);
        }
    }
}

proof fn lemma_inv_push(frames: Seq<FrameView>, x: FrameView)
    requires
        frames_inv(frames),
        frame_ok(x),
        !(x.attach is Root),
    ensures
        frames_inv(frames.push(x)),
{
    let g = frames.push(x);
    assert forall|i: int| 0 <= i < g.len() implies frame_ok(#[trigger] g[i]) by {
        if i < frames.len() {
            assert(g[i] == frames[i]);
        }
    }
    assert forall|i: int| 0 < i < g.len() implies !(#[trigger] g[i].attach is Root) by {
        if i < frames.len() {
            assert(g[i] == frames[i]);
        }
    }
}

proof fn lemma_inv_take(frames: Seq<FrameView>, i: int)
    requires
        frames_inv(frames),
        1 <= i <= frames.len(),
    ensures
        frames_inv(frames.take(i)),
{
    let g = frames.take(i);
    assert forall|k: int| 0 <= k < g.len() implies frame_ok(#[trigger] g[k]) by {
        assert(g[k] == frames[k]);
    }
    assert forall|k: int| 0 < k < g.len() implies !(#[trigger] g[k].attach is Root) by {
        assert(g[k] == frames[k]);
    }
}

proof fn lemma_frame_ok_drop(f: FrameView, n: int)
    requires
        frame_ok(f),
        0 <= n <= f.toks.len(),
    ensures
        forall|j: int| 0 <= j < f.toks.skip(n).len() ==> token_fits(#[trigger] f.toks.skip(n)[j]),
{
    assert forall|j: int| 0 <= j < f.toks.skip(n).len() implies token_fits(#[trigger] f.toks.skip(n)[j]) by {
        assert(f.toks.skip(n)[j] == f.toks[j + n]);
    }
}

proof fn lemma_push_container_inv(frames: Seq<FrameView>, file: Seq<u8>, attach: AttachView)
    requires
        frames_inv(frames),
        !(attach is Root),
    ensures
        push_container_spec(frames, file, attach) matches Ok(g) ==> frames_inv(g),
{
    let parent = frames.last();
    let p1 = FrameView { toks: Seq::empty(), ..parent };
    assert(frame_ok(frames[frames.len() - 1]));
    lemma_inv_set_top(frames, p1);
    if parent.depth + 1 <= MAX_NESTING_DEPTH {
        lemma_inv_push(set_top(frames, p1), FrameView {
            toks: parent.toks,
            items: Seq::empty(),
            attach,
            diags: Seq::empty(),
            depth: parent.depth + 1,
            end: parent.end,
        });
    }
}

proof fn lemma_complete_container_inv(frames: Seq<FrameView>, close: Option<TokenView>)
    requires
        frames_inv(frames),
        frames.last().attach is Container,
    ensures
        frames_inv(complete_container_spec(frames, close)),
{
    let rest = frames.drop_last();
    let child = frames.last();
    assert(frames.len() >= 2);
    assert(frame_ok(frames[frames.len() - 1]));
    assert(frame_ok(frames[frames.len() - 2]));
    lemma_inv_take(frames, frames.len() - 1);
    assert(frames.take(frames.len() - 1) =~= rest);
    assert(rest.last() == frames[frames.len() - 2]);
    let parent = rest.last();
    match child.attach {
        AttachView::Container { entry, header, span } => {
            let end = match close {
                Some(t) => t.span,
                None => child.end,
            };
            let diags = if close is None {
                child.diags.push(DiagnosticView { kind: Repair::UnclosedAtEof, span, text: seq![123u8] })
            } else {
                child.diags
            };
            let body = ContainerView { header, items: child.items };
            let kind = match entry {
                Some((key, op)) => ItemKindView::Entry(EntryView { key, op, value: ValueView::Container(body) }),
                None => ItemKindView::Container(body),
            };
            let x = FrameView {
                items: parent.items.push(ItemView { kind, span: Some(through(span, end)) }),
                diags: parent.diags + diags,
                toks: child.toks,
                ..parent
            };
            if rest.len() > 1 {
                assert(rest[rest.len() - 1] == frames[frames.len() - 2]);
            }
            lemma_inv_set_top(rest, x);
        },
        _ => {},
    }
}

proof fn lemma_advance_inv(frames: Seq<FrameView>, file: Seq<u8>)
    requires
        frames_inv(frames),
    ensures
        advance_spec(frames, file) matches Ok(g) ==> frames_inv(g),
{
    let top = frames.last();
    assert(frame_ok(frames[frames.len() - 1]));
    if top.toks.len() == 0 {
        if top.attach is Container {
            lemma_complete_container_inv(frames, None);
        }
    } else {
        let first = top.toks[0];
        let rest = top.toks.drop_first();
        lemma_frame_ok_drop(top, 1);
        if top.toks.len() >= 2 {
            lemma_frame_ok_drop(top, 2);
        }
        if top.toks.len() >= 3 {
            lemma_frame_ok_drop(top, 3);
        }
        if top.toks.len() >= 4 {
            lemma_frame_ok_drop(top, 4);
        }
        assert(rest =~= top.toks.skip(1));
        let top1 = FrameView { toks: rest, ..top };
        let frames1 = set_top(frames, top1);
        lemma_inv_set_top(frames, top1);
        if let Ok(g) = advance_spec(frames, file) {
            if first.kind == Kind::Close && top.attach is Container {
                lemma_complete_container_inv(frames1, Some(first));
            } else if first.kind == Kind::Close {
                lemma_inv_set_top(frames, FrameView {
                    diags: top.diags.push(DiagnosticView { kind: Repair::StrayClosingBrace, span: first.span, text: first.text }),
                    ..top1
                });
            } else if first.kind == Kind::Open {
                lemma_push_container_inv(frames1, file, AttachView::Container { entry: None, header: None, span: first.span });
            } else if first.kind == Kind::Region {
                assert(token_fits(top.toks[0]));
                lemma_lex_fits(first.body, first.body_start as int, file, 0, first.span.line as int);
                if let Ok(ts) = lex(first.body, first.body_start as int, file, first.span.line as int) {
                    lemma_inv_push(frames1, FrameView {
                        toks: ts,
                        items: Seq::empty(),
                        attach: AttachView::Region(first),
                        diags: Seq::empty(),
                        depth: top.depth + 1,
                        end: first.span,
                    });
                } else {
                    lemma_inv_set_top(frames, FrameView { items: top.items.push(region_text_item(first)), ..top1 });
                }
            } else if first.kind == Kind::Word && rest.len() > 0 && rest[0].kind == Kind::Op {
                let rest2 = rest.drop_first();
                let value = rest2[0];
                let rest3 = rest2.drop_first();
                assert(rest3 =~= top.toks.skip(3));
                let header = value.kind == Kind::Word && !value.quoted && rest3.len() > 0
                    && rest3[0].kind == Kind::Open && rest3[0].span.line == value.span.line;
                let rest4 = if header { rest3.drop_first() } else { rest3 };
                assert(header ==> rest4 =~= top.toks.skip(4));
                let op = op_of(rest[0].text).unwrap();
                if value.kind == Kind::Open || header {
                    lemma_inv_set_top(frames, FrameView { toks: rest4, ..top });
                    lemma_push_container_inv(
                        set_top(frames, FrameView { toks: rest4, ..top }),
                        file,
                        AttachView::Container {
                            entry: Some((first.text, op)),
                            header: if header { Some(value.text) } else { None },
                            span: first.span,
                        },
                    );
                } else {
                    lemma_inv_set_top(frames, FrameView {
                        toks: rest3,
                        items: top.items.push(ItemView {
                            span: Some(through(first.span, value.span)),
                            kind: ItemKindView::Entry(EntryView {
                                key: first.text,
                                op,
                                value: ValueView::Scalar(token_scalar(value)),
                            }),
                        }),
                        ..top
                    });
                }
            } else if first.kind == Kind::Word {
                let same_line_block = rest.len() > 0 && rest[0].kind == Kind::Open && rest[0].span.line == first.span.line;
                let entry_body = rest.len() > 1 && rest[1].kind == Kind::Word && rest.len() > 2 && rest[2].kind == Kind::Op;
                if same_line_block && (top.attach is Root || entry_body) {
                    assert(rest.drop_first() =~= top.toks.skip(2));
                    let t2 = FrameView {
                        toks: rest.drop_first(),
                        diags: top.diags.push(DiagnosticView { kind: Repair::OperatorLessEntry, span: first.span, text: first.text }),
                        ..top
                    };
                    lemma_inv_set_top(frames, t2);
                    lemma_push_container_inv(
                        set_top(frames, t2),
                        file,
                        AttachView::Container { entry: Some((first.text, Operator::Assign)), header: None, span: first.span },
                    );
                } else {
                    lemma_inv_set_top(frames, FrameView {
                        items: top.items.push(ItemView { span: Some(first.span), kind: ItemKindView::Scalar(token_scalar(first)) }),
                        ..top1
                    });
                }
            } else {
                lemma_inv_set_top(frames, FrameView {
                    items: top.items.push(ItemView { span: Some(first.span), kind: ItemKindView::Scalar(token_scalar(first)) }),
                    ..top1
                });
            }
        }
    }
}

proof fn lemma_iterate_inv(frames: Seq<FrameView>, file: Seq<u8>)
    requires
        frames_inv(frames),
    ensures
        iterate_spec(frames, file) matches Iteration::Continue(g) ==> frames_inv(g),
{
    reveal(iterate_spec);
    lemma_advance_inv(frames, file);
    match advance_spec(frames, file) {
        Err(e) => {
            lemma_last_region(frames, frames.len() as int);
            if let Some(i) = last_region(frames, frames.len() as int) {
                assert(i >= 1);
                lemma_inv_take(frames, i);
                let kept = frames.take(i);
                assert(frame_ok(kept[kept.len() - 1]));
                lemma_inv_set_top(kept, FrameView {
                    items: kept.last().items.push(region_text_item(frames[i].attach->Region_0)),
                    ..kept.last()
                });
            }
        },
        Ok(g) => {
            if !(g.len() == 0 || g.last().toks.len() > 0 || g.last().attach is Container) {
                let complete = g.last();
                if let AttachView::Region(t) = complete.attach {
                    assert(g.len() >= 2);
                    lemma_inv_take(g, g.len() - 1);
                    assert(g.take(g.len() - 1) =~= g.drop_last());
                    let rest = g.drop_last();
                    assert(frame_ok(rest[rest.len() - 1]));
                    if rest.len() > 1 {
                        assert(rest[rest.len() - 1] == g[g.len() - 2]);
                    }
                    lemma_inv_set_top(rest, complete_region_frame(rest.last(), t, complete.items, complete.diags));
                }
            }
        },
    }
}

fn is_region_frame(f: &Frame) -> (r: bool)
    ensures
        r == (attach_view(f.attach) is Region),
{
    match f.attach {
        Attach::Region(_) => true,
        _ => false,
    }
}

fn is_container_frame(f: &Frame) -> (r: bool)
    ensures
        r == (attach_view(f.attach) is Container),
{
    match f.attach {
        Attach::Container { .. } => true,
        _ => false,
    }
}

/// Replaces a failed region body, and everything opened inside it, by its verbatim text.
fn fall_back_to_region_text(frames: &mut Vec<Frame>, i: usize, Ghost(fv): Ghost<Seq<FrameView>>)
    requires
        frames_inv(fv),
        kept_below_top(fv, frames_view(old(frames)@)),
        1 <= i < fv.len(),
        fv[i as int].attach is Region,
    ensures
        frames_view(final(frames)@) == ({
            let kept = fv.take(i as int);
            set_top(kept, FrameView {
                items: kept.last().items.push(region_text_item(fv[i as int].attach->Region_0)),
                ..kept.last()
            })
        }),
{
    let ghost v0 = frames@;
    while frames.len() > i + 1
        invariant
            i + 1 <= frames@.len() <= v0.len(),
            frames@ == v0.take(frames@.len() as int),
        decreases frames@.len(),
    {
        frames.pop();
        assert(frames@ =~= v0.take(frames@.len() as int));
    }
    let region = frames.pop().unwrap();
    proof {
        assert(region == v0[i as int]);
        assert(frame_view(v0[i as int]) == frames_view(v0)[i as int]);
    }
    let token = match region.attach {
        Attach::Region(t) => t,
        _ => {
            proof {
                assert(false);
            }
            return;
        },
    };
    let mut parent = frames.pop().unwrap();
    proof {
        assert(frames@ =~= v0.take(i - 1));
        assert(parent == v0[i - 1]);
        assert(frames_view(v0)[i - 1] == fv[i - 1]);
        assert(frames_view(v0.take(i as int)) =~= fv.take(i as int)) by {
            assert forall|k: int| 0 <= k < i implies #[trigger] frames_view(v0.take(i as int))[k] == fv.take(i as int)[k] by {
                assert(frames_view(v0)[k] == fv[k]);
            }
        }
    }
    let item = region_text(token);
    let ghost pi = parent.items@;
    parent.items.push(item);
    proof {
        lemma_items_view_push(pi, item);
    }
    let ghost v1 = frames@;
    frames.push(parent);
    proof {
        lemma_frames_view_push(v1, parent);
        let kept = fv.take(i as int);
        assert(frames_view(v1) =~= kept.drop_last());
        lemma_set_top_push(kept, frame_view(parent));
    }
}

/// Whether an executable outcome is the one the frame machine finishes with.
pub open spec fn finished_as(r: Result<Document, SyntaxError>, s: Result<(Seq<ItemView>, Seq<DiagnosticView>), ErrorView>, file: Seq<u8>) -> bool {
    match s {
        Ok((items, diags)) => r matches Ok(d) && d@ == (DocumentView { file, items, diagnostics: diags }),
        Err(e) => r matches Err(x) && x@ == e,
    }
}

/// One iteration of the parse loop.
#[verifier::rlimit(30)]
fn parse_step(frames: &mut Vec<Frame>, file: &str) -> (r: Option<Result<Document, SyntaxError>>)
    requires
        frames_inv(frames_view(old(frames)@)),
    ensures
        match iterate_spec(frames_view(old(frames)@), file.spec_bytes()) {
            Iteration::Continue(g) => r is None && frames_view(final(frames)@) == g,
            Iteration::Finished(s) => r matches Some(x) && finished_as(x, s, file.spec_bytes()),
        },
{
    let ghost fv = frames_view(frames@);
    let ghost fb = file.spec_bytes();
    proof {
        lemma_advance_inv(fv, fb);
        reveal(iterate_spec);
    }
    match advance_frame(frames, file) {
        Err(e) => {
            if e.kind == ErrorKind::NestingLimit {
                return Some(Err(e));
            }
            let ghost post = frames_view(frames@);
            let mut index = frames.len();
            while index > 0 && !is_region_frame(&frames[index - 1])
                invariant
                    index <= frames@.len(),
                    frames@.len() == fv.len(),
                    post == frames_view(frames@),
                    kept_below_top(fv, post),
                    last_region(fv, fv.len() as int) == last_region(fv, index as int),
                decreases index,
            {
                proof {
                    assert(frame_view(frames@[index - 1]) == post[index - 1]);
                }
                index -= 1;
            }
            proof {
                if index > 0 {
                    assert(frame_view(frames@[index - 1]) == post[index - 1]);
                }
                lemma_last_region(fv, fv.len() as int);
            }
            if index == 0 {
                return Some(Err(e));
            }
            proof {
                assert(fv[index - 1].attach is Region);
                assert(index - 1 != 0);
            }
            fall_back_to_region_text(frames, index - 1, Ghost(fv));
            None
        },
        Ok(()) => {
            let n = frames.len();
            let done = frames[n - 1].cursor.peek().is_none() && !is_container_frame(&frames[n - 1]);
            proof {
                assert(frame_view(frames@[n - 1]) == frames_view(frames@).last());
            }
            if !done {
                return None;
            }
            let ghost g = frames_view(frames@);
            let ghost v1 = frames@;
            let complete = frames.pop().unwrap();
            proof {
                lemma_frames_view_drop_last(v1);
            }
            let Frame { cursor: _, items, attach, diagnostics, depth: _, end: _ } = complete;
            match attach {
                Attach::Root => Some(Ok(Document { file: file.to_owned(), items, diagnostics })),
                Attach::Region(token) => {
                    proof {
                        lemma_advance_inv(fv, fb);
                        assert(g.len() >= 2);
                    }
                    let ghost v2 = frames@;
                    let mut parent = frames.pop().unwrap();
                    proof {
                        lemma_frames_view_drop_last(v2);
                    }
                    complete_region(&mut parent, token, items, diagnostics);
                    let ghost v3 = frames@;
                    frames.push(parent);
                    proof {
                        lemma_frames_view_push(v3, parent);
                        lemma_set_top_push(g.drop_last(), frame_view(parent));
                    }
                    None
                },
                Attach::Container { .. } => {
                    proof {
                        assert(false);
                    }
                    vstd::pervasive::unreached()
                },
            }
        },
    }
}

fn parse_tokens(tokens: Vec<Token>, file: &str, end: Span) -> (r: Result<Document, SyntaxError>)
    requires
        forall|j: int| 0 <= j < tokens@.len() ==> token_fits(#[trigger] tokens_view(tokens@)[j]),
    ensures
        finished_as(r, run_spec(seq![root_frame(tokens_view(tokens@), end)], file.spec_bytes()), file.spec_bytes()),
{
    let ghost fb = file.spec_bytes();
    let ghost init = seq![root_frame(tokens_view(tokens@), end)];
    let mut frames: Vec<Frame> = Vec::new();
    let root = Frame::new(tokens, Attach::Root, 0, end);
    frames.push(root);
    proof {
        assert(frames_view(frames@) =~= init);
        assert(frame_ok(init[0]));
    }
    loop
        invariant
            frames_inv(frames_view(frames@)),
            run_spec(frames_view(frames@), fb) == run_spec(init, fb),
            fb == file.spec_bytes(),
            init == seq![root_frame(tokens_view(tokens@), end)],
        decreases frames_weight(frames_view(frames@)), frames@.len(),
    {
        let ghost fv = frames_view(frames@);
        proof {
            lemma_iterate_decreases(fv, fb);
            lemma_iterate_inv(fv, fb);
            lemma_frames_weight_nonneg(fv);
        }
        if let Some(r) = parse_step(&mut frames, file) {
            proof {
                let st = iterate_spec(fv, fb)->Finished_0;
                assert(run_spec(fv, fb) == st);
            }
            return r;
        }
    }
}

/// Parses decoded game-definition source. Repairs are returned explicitly; syntax/resource errors fail.
pub fn parse(source: &str, file: &str) -> (r: Result<Document, SyntaxError>)
    ensures
        match spec_parse(source.spec_bytes(), file.spec_bytes()) {
            Ok(d) => r matches Ok(x) && x@ == d,
            Err(e) => r matches Err(x) && x@ == e,
        },
{
    reveal(spec_parse);
    let b = source.as_bytes();
    let n = byte_len(source);
    let bom = n >= 3 && b[0] == 0xEF && b[1] == 0xBB && b[2] == 0xBF;
    proof {
        vstd::utf8::encode_utf8_valid_utf8(source@);
        if bom {
            crate::text::lemma_bom_boundary(b@);
        }
        crate::text::lemma_boundary_start(source);
    }
    let (text, base) = if bom {
        (crate::text::slice(source, 3, n), 3usize)
    } else {
        (source, 0usize)
    };
    let lines = crate::text::count_newlines(b);
    proof {
        crate::text::lemma_newlines_bound(b@, 0, n as int);
        crate::text::lemma_newlines_bound(text.spec_bytes(), 0, text.spec_bytes().len() as int);
    }
    let end = Span { start: n, end: n, line: lines + 1, end_line: lines + 1 };
    let tokens = match tokenize(text, file, base, 1) {
        Ok(t) => t,
        Err(e) => return Err(e),
    };
    proof {
        lemma_lex_fits(text.spec_bytes(), base as int, file.spec_bytes(), 0, 1);
    }
    parse_tokens(tokens, file, end)
}

/// The flat reading of a verbatim body: words, inline math, and nested regions in order.
pub open spec fn flat_items(ts: Seq<TokenView>) -> Seq<ItemView>
    decreases ts.len(),
{
    if ts.len() == 0 {
        Seq::empty()
    } else {
        let t = ts[0];
        let rest = flat_items(ts.drop_first());
        if t.kind == Kind::Word || t.kind == Kind::Math {
            seq![ItemView { span: Some(t.span), kind: ItemKindView::Scalar(token_scalar(t)) }] + rest
        } else if t.kind == Kind::Region {
            seq![region_text_item(t)] + rest
        } else {
            rest
        }
    }
}

/// Reads words, inline math, and nested regions from a verbatim conditional body in source order.
/// Braces and operators are omitted; brace relationships are not inferred.
/// Returns an error if tokenization fails.
pub fn region_items(text: &str, file: &str) -> (r: Result<Vec<Item>, SyntaxError>)
    ensures
        match lex(text.spec_bytes(), 0, file.spec_bytes(), 1) {
            Ok(ts) => r matches Ok(v) && items_view(v@) == flat_items(ts),
            Err(e) => r matches Err(x) && x@ == e,
        },
{
    let n = byte_len(text);
    proof {
        crate::text::lemma_newlines_bound(text.spec_bytes(), 0, n as int);
    }
    let tokens = match tokenize(text, file, 0, 1) {
        Ok(t) => t,
        Err(e) => return Err(e),
    };
    let ghost ts = tokens_view(tokens@);
    let mut cursor = Cursor::new(tokens);
    let mut out: Vec<Item> = Vec::new();
    proof {
        lemma_items_view(out@);
        assert(items_view(out@) =~= Seq::<ItemView>::empty());
        assert(ts.skip(0) =~= ts);
    }
    while cursor.tokens.len() > 0
        invariant
            cursor.rest().len() <= ts.len(),
            tokens_view(cursor.rest()) == ts.skip(ts.len() - cursor.rest().len()),
            flat_items(ts) == items_view(out@) + flat_items(tokens_view(cursor.rest())),
        decreases cursor.rest().len(),
    {
        let ghost before = cursor.rest();
        proof {
            lemma_tokens_view_drop_first(before);
        }
        let token = cursor.take().unwrap();
        proof {
            assert(tokens_view(cursor.rest()) =~= ts.skip(ts.len() - cursor.rest().len()));
        }
        match token.kind {
            Kind::Word | Kind::Math => {
                let item = Item { span: Some(token.span), kind: ItemKind::Scalar(as_scalar(&token)) };
                let ghost o = out@;
                out.push(item);
                proof {
                    lemma_items_view_push(o, item);
                    assert(items_view(o) + flat_items(tokens_view(before)) =~= items_view(out@) + flat_items(tokens_view(cursor.rest())));
                }
            },
            Kind::Region => {
                let item = region_text(token);
                let ghost o = out@;
                out.push(item);
                proof {
                    lemma_items_view_push(o, item);
                    assert(items_view(o) + flat_items(tokens_view(before)) =~= items_view(out@) + flat_items(tokens_view(cursor.rest())));
                }
            },
            _ => {},
        }
    }
    proof {
        assert(tokens_view(cursor.rest()) =~= Seq::<TokenView>::empty());
        assert(items_view(out@) + Seq::<ItemView>::empty() =~= items_view(out@));
    }
    Ok(out)
}

/// A token that a flat reading of a region body keeps: a word (quoted or not), inline math, or a
/// nested region.
pub open spec fn flat_kept(t: TokenView) -> bool {
    t.kind == Kind::Word || t.kind == Kind::Math || t.kind == Kind::Region
}

/// What a flat reading makes of the tokens `ts`: one item per kept token, in order, at the token's
/// location; a word or inline math is its scalar (a quoted word a quoted string of its text), and
/// a nested region is its verbatim text.
pub open spec fn flat_reading(ts: Seq<TokenView>, items: Seq<ItemView>) -> bool {
    let kept = ts.filter(|t: TokenView| flat_kept(t));
    &&& items.len() == kept.len()
    &&& forall|i: int| 0 <= i < kept.len() ==> (#[trigger] items[i]).span == Some(kept[i].span)
    &&& forall|i: int| 0 <= i < kept.len() && kept[i].kind != Kind::Region
        ==> (#[trigger] items[i]).kind == ItemKindView::Scalar(token_scalar(kept[i]))
    &&& forall|i: int| 0 <= i < kept.len() && kept[i].kind == Kind::Word && kept[i].quoted
        ==> (#[trigger] items[i]).kind == ItemKindView::Scalar(ScalarView::Str { value: kept[i].text, quoted: true })
    &&& forall|i: int| 0 <= i < kept.len() && kept[i].kind == Kind::Region
        ==> (#[trigger] items[i]).kind == (ItemKindView::ParamText { name: strip_bang(kept[i].text), negated: is_negated(kept[i]), text: kept[i].body })
}

proof fn lemma_flat_reading(ts: Seq<TokenView>)
    ensures
        flat_reading(ts, flat_items(ts)),
    decreases ts.len(),
{
    let p = |t: TokenView| flat_kept(t);
    if ts.len() > 0 {
        let t = ts[0];
        let r = ts.drop_first();
        lemma_flat_reading(r);
        assert(ts =~= seq![t] + r);
        Seq::filter_distributes_over_add(seq![t], r, p);
        reveal_with_fuel(Seq::filter, 2);
        assert(seq![t].drop_last() =~= Seq::<TokenView>::empty());
        let kr = r.filter(p);
        let fi = flat_items(ts);
        let fr = flat_items(r);
        if flat_kept(t) {
            assert(seq![t].filter(p) =~= seq![t]);
            let kept = seq![t] + kr;
            assert(ts.filter(p) == kept);
            assert(fi == seq![fi[0]] + fr);
            assert forall|i: int| 0 <= i < kept.len() implies (#[trigger] fi[i]).span == Some(kept[i].span) by {
                if i > 0 {
                    assert(fi[i] == fr[i - 1] && kept[i] == kr[i - 1]);
                }
            }
            assert forall|i: int| 0 <= i < kept.len() && kept[i].kind != Kind::Region
                implies (#[trigger] fi[i]).kind == ItemKindView::Scalar(token_scalar(kept[i])) by {
                if i > 0 {
                    assert(fi[i] == fr[i - 1] && kept[i] == kr[i - 1]);
                }
            }
            assert forall|i: int| 0 <= i < kept.len() && kept[i].kind == Kind::Word && kept[i].quoted
                implies (#[trigger] fi[i]).kind == ItemKindView::Scalar(ScalarView::Str { value: kept[i].text, quoted: true }) by {
                if i > 0 {
                    assert(fi[i] == fr[i - 1] && kept[i] == kr[i - 1]);
                }
            }
            assert forall|i: int| 0 <= i < kept.len() && kept[i].kind == Kind::Region
                implies (#[trigger] fi[i]).kind == (ItemKindView::ParamText { name: strip_bang(kept[i].text), negated: is_negated(kept[i]), text: kept[i].body }) by {
                if i > 0 {
                    assert(fi[i] == fr[i - 1] && kept[i] == kr[i - 1]);
                }
            }
        } else {
            assert(seq![t].filter(p) =~= Seq::<TokenView>::empty());
            assert(ts.filter(p) =~= kr);
            assert(fi == fr);
        }
    } else {
        assert(ts.filter(p) =~= Seq::<TokenView>::empty());
    }
}

/// Reading a region body flat (`region_items`) keeps, in order and at their own locations, every
/// word of the body, quoted or not, every piece of inline math, and every nested region; it drops
/// only braces, brackets and operators.
pub proof fn law_region_items_words(text: Seq<u8>, file: Seq<u8>)
    ensures
        lex(text, 0, file, 1) matches Ok(ts) ==> flat_reading(ts, flat_items(ts)),
{
    if let Ok(ts) = lex(text, 0, file, 1) {
        lemma_flat_reading(ts);
    }
}

} // verus!
