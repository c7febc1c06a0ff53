//! What reading gives back of canonical writing of what was read.
use vstd::prelude::*;
use super::ast::{ContainerView, EntryView, ItemKindView, ItemView, ValueView};
use super::lexer::{Kind, LexStep, TokenView, lex, lex_from, lex_step, lemma_lex_step, lemma_word_end, word_end};
use super::parser::{
    AttachView, FrameView, Iteration, advance_spec, iterate_spec, run_spec, set_top, token_scalar,
    complete_container_spec, complete_region_frame, last_region, region_text_item, root_frame,
    spec_parse, source_text, end_span, lemma_iterate_decreases, lemma_frames_weight_nonneg, frames_weight,
};
use super::representable::{bare_token, term_byte};
use super::roundtrip::{canon_item, canon_items, canonical_scalar, tree_item, tree_items, law_tree_roundtrip, region_fits, regions_fit, regions_fit_below};
use super::serialize::spec_serialize;
use super::walk::strip_items;
use crate::source::ErrorView;

verus! {

/// A word read without quotes is a bare token.
pub open spec fn word_ok(t: TokenView) -> bool {
    t.kind == Kind::Word && !t.quoted ==> bare_token(t.text)
}

pub open spec fn words_ok(ts: Seq<TokenView>) -> bool {
    forall|j: int| 0 <= j < ts.len() ==> word_ok(#[trigger] ts[j])
}

/// Every unquoted word the tokenizer reads is a bare token.
pub proof fn lemma_lex_words(b: Seq<u8>, base: int, file: Seq<u8>, pos: int, line: int)
    ensures
        lex_from(b, base, file, pos, line) matches Ok(ts) ==> words_ok(ts),
    decreases b.len() - pos,
{
    if 0 <= pos < b.len() {
        lemma_lex_step(b, base, file, pos, line);
        lemma_word_end(b, pos);
        match lex_step(b, base, file, pos, line) {
            LexStep::Skip(p, l) => {
                lemma_lex_words(b, base, file, p, l);
            },
            LexStep::Tok(t, p, l) => {
                lemma_lex_words(b, base, file, p, l);
                if t.kind == Kind::Word && !t.quoted {
                    let e = word_end(b, pos);
                    assert(t.text == b.subrange(pos, e));
                    assert forall|i: int| 0 <= i < t.text.len() implies !term_byte(#[trigger] t.text[i]) by {
                        assert(t.text[i] == b[pos + i]);
                    }
                }
                if let Ok(rest) = lex_from(b, base, file, p, l) {
                    let ts = seq![t] + rest;
                    assert forall|j: int| 0 <= j < ts.len() implies word_ok(#[trigger] ts[j]) by {
                        if j > 0 {
                            assert(ts[j] == rest[j - 1]);
                        }
                    }
                }
            },
            _ => {},
        }
    }
}

/// An item as reading gives it: strings canonical, anonymous bodies without a header.
pub open spec fn read_item(i: ItemView) -> bool
    decreases i,
{
    match i.kind {
        ItemKindView::Scalar(s) => canonical_scalar(s),
        ItemKindView::Entry(e) => match e.value {
            ValueView::Scalar(s) => canonical_scalar(s),
            ValueView::Container(c) => read_items(c.items),
        },
        ItemKindView::Container(c) => c.header is None && read_items(c.items),
        ItemKindView::Param { items, .. } => read_items(items),
        ItemKindView::ParamText { .. } => true,
    }
}

pub open spec fn read_items(s: Seq<ItemView>) -> bool
    decreases s,
{
    if s.len() == 0 {
        true
    } else {
        read_item(s[0]) && read_items(s.subrange(1, s.len() as int))
    }
}

proof fn lemma_read_push(s: Seq<ItemView>, x: ItemView)
    requires
        read_items(s),
        read_item(x),
    ensures
        read_items(s.push(x)),
    decreases s.len(),
{
    let t = s.push(x);
    let tail = t.subrange(1, t.len() as int);
    if s.len() > 0 {
        let r = s.subrange(1, s.len() as int);
        lemma_read_push(r, x);
        assert(tail =~= r.push(x));
        assert(t[0] == s[0]);
    } else {
        assert(tail =~= Seq::<ItemView>::empty());
        assert(t[0] == x);
    }
    assert(read_items(t) == (read_item(t[0]) && read_items(tail)));
}

proof fn lemma_read_tree(s: Seq<ItemView>, k: int)
    requires
        read_items(s),
        regions_fit(s, k),
    ensures
        tree_items(s),
    decreases s,
{
    if s.len() > 0 {
        lemma_read_tree_item(s[0], k);
        lemma_read_tree(s.subrange(1, s.len() as int), k);
    }
}

proof fn lemma_read_tree_item(i: ItemView, k: int)
    requires
        read_item(i),
        region_fits(i, k),
    ensures
        tree_item(i),
    decreases i,
{
    match i.kind {
        ItemKindView::Entry(e) => {
            if let ValueView::Container(c) = e.value {
                lemma_read_tree(c.items, k + 1);
            }
        },
        ItemKindView::Container(c) => {
            lemma_read_tree(c.items, k + 1);
        },
        ItemKindView::Param { items, .. } => {
            lemma_read_tree(items, k + 1);
        },
        _ => {},
    }
}

/// Items as reading gives them are already as they read back after writing.
proof fn lemma_canon_read(s: Seq<ItemView>)
    requires
        read_items(s),
    ensures
        canon_items(s) == s,
    decreases s,
{
    if s.len() > 0 {
        let rest = s.subrange(1, s.len() as int);
        lemma_canon_read_item(s[0]);
        lemma_canon_read(rest);
        assert(canon_items(s) =~= s) by {
            assert(canon_items(s) == seq![canon_item(s[0])] + canon_items(rest));
            assert forall|j: int| 0 <= j < s.len() implies canon_items(s)[j] == s[j] by {
                if j > 0 {
                    assert(rest[j - 1] == s[j]);
                }
            }
        }
    } else {
        assert(canon_items(s) =~= s);
    }
}

proof fn lemma_canon_read_item(i: ItemView)
    requires
        read_item(i),
    ensures
        canon_item(i) == i,
    decreases i,
{
    match i.kind {
        ItemKindView::Entry(e) => {
            if let ValueView::Container(c) = e.value {
                lemma_canon_read(c.items);
            }
        },
        ItemKindView::Container(c) => {
            lemma_canon_read(c.items);
        },
        ItemKindView::Param { items, .. } => {
            lemma_canon_read(items);
        },
        _ => {},
    }
}

/// A scalar read from a word or inline math is canonical.
proof fn lemma_token_scalar(t: TokenView)
    requires
        word_ok(t),
        t.kind == Kind::Word || t.kind == Kind::Math,
    ensures
        canonical_scalar(token_scalar(t)),
{
}

/// What every frame of a run holds: items as reading gives them, and words that are bare tokens.
pub open spec fn frame_read(f: FrameView) -> bool {
    &&& read_items(f.items)
    &&& words_ok(f.toks)
    &&& f.attach matches AttachView::Container { entry, header, .. } ==> (entry is None ==> header is None)
}

pub open spec fn frames_read(frames: Seq<FrameView>) -> bool {
    forall|k: int| 0 <= k < frames.len() ==> frame_read(#[trigger] frames[k])
}

proof fn lemma_read_set_top(frames: Seq<FrameView>, x: FrameView)
    requires
        frames_read(frames),
        frame_read(x),
    ensures
        frames_read(set_top(frames, x)),
{
    let g = set_top(frames, x);
    assert forall|k: int| 0 <= k < g.len() implies frame_read(#[trigger] g[k]) by {
        if k < frames.len() - 1 {
            assert(g[k] == frames[k]);
        }
    }
}

proof fn lemma_read_push_frame(frames: Seq<FrameView>, x: FrameView)
    requires
        frames_read(frames),
        frame_read(x),
    ensures
        frames_read(frames.push(x)),
{
    let g = frames.push(x);
    assert forall|k: int| 0 <= k < g.len() implies frame_read(#[trigger] g[k]) by {
        if k < frames.len() {
            assert(g[k] == frames[k]);
        }
    }
}

proof fn lemma_words_skip(ts: Seq<TokenView>, n: int)
    requires
        words_ok(ts),
        0 <= n <= ts.len(),
    ensures
        words_ok(ts.skip(n)),
{
    assert forall|j: int| 0 <= j < ts.skip(n).len() implies word_ok(#[trigger] ts.skip(n)[j]) by {
        assert(ts.skip(n)[j] == ts[j + n]);
    }
}

proof fn lemma_read_complete_container(frames: Seq<FrameView>, close: Option<TokenView>)
    requires
        frames_read(frames),
        frames.len() >= 2,
        frames.last().attach is Container,
    ensures
        frames_read(complete_container_spec(frames, close)),
{
    let rest = frames.drop_last();
    let child = frames.last();
    assert(frame_read(frames[frames.len() - 1]));
    assert(frame_read(frames[frames.len() - 2]));
    assert(rest.last() == frames[frames.len() - 2]);
    assert forall|k: int| 0 <= k < rest.len() implies frame_read(#[trigger] rest[k]) by {
        assert(rest[k] == frames[k]);
    }
    let parent = rest.last();
    if let AttachView::Container { entry, header, span } = child.attach {
        let body = ContainerView { header, items: child.items };
        let kind = match entry {
            Some((key, op)) => ItemKindView::Entry(EntryView { key, op, value: ValueView::Container(body) }),
            None => ItemKindView::Container(body),
        };
        let end = match close {
            Some(t) => t.span,
            None => child.end,
        };
        let item = ItemView { kind, span: Some(crate::source::through(span, end)) };
        assert(read_item(item));
        lemma_read_push(parent.items, item);
        lemma_read_set_top(rest, complete_container_spec(frames, close).last());
        assert(complete_container_spec(frames, close) == set_top(rest, complete_container_spec(frames, close).last()));
    }
}

/// One step of the frame machine keeps what every frame holds.
#[verifier::rlimit(60)]
#[verifier::spinoff_prover]
proof fn lemma_advance_read(frames: Seq<FrameView>, file: Seq<u8>)
    requires
        frames_read(frames),
        frames.len() >= 1,
    ensures
        advance_spec(frames, file) matches Ok(g) ==> frames_read(g),
{
    let top = frames.last();
    assert(frame_read(frames[frames.len() - 1]));
    if top.toks.len() == 0 {
        if top.attach is Container {
            if frames.len() >= 2 {
                lemma_read_complete_container(frames, None);
            }
        }
    } else {
        let first = top.toks[0];
        let rest = top.toks.drop_first();
        lemma_words_skip(top.toks, 1);
        assert(rest =~= top.toks.skip(1));
        assert(word_ok(top.toks[0]));
        if top.toks.len() >= 2 {
            lemma_words_skip(top.toks, 2);
            assert(word_ok(top.toks[1]));
        }
        if top.toks.len() >= 3 {
            lemma_words_skip(top.toks, 3);
            assert(word_ok(top.toks[2]));
        }
        if top.toks.len() >= 4 {
            lemma_words_skip(top.toks, 4);
        }
        let top1 = FrameView { toks: rest, ..top };
        let frames1 = set_top(frames, top1);
        lemma_read_set_top(frames, top1);
        if let Ok(g) = advance_spec(frames, file) {
            if first.kind == Kind::Close && top.attach is Container {
                if frames1.len() >= 2 {
                    lemma_read_complete_container(frames1, Some(first));
                }
            } else if first.kind == Kind::Close {
                lemma_read_set_top(frames, FrameView {
                    diags: top.diags.push(super::ast::DiagnosticView { kind: super::ast::Repair::StrayClosingBrace, span: first.span, text: first.text }),
                    ..top1
                });
            } else if first.kind == Kind::Open {
                let p1 = FrameView { toks: Seq::empty(), ..top1 };
                lemma_read_set_top(frames1, p1);
                lemma_read_push_frame(set_top(frames1, p1), FrameView {
                    toks: rest,
                    items: Seq::empty(),
                    attach: AttachView::Container { entry: None, header: None, span: first.span },
                    diags: Seq::empty(),
                    depth: top.depth + 1,
                    end: top.end,
                });
            } else if first.kind == Kind::Region {
                lemma_lex_words(first.body, first.body_start as int, file, 0, first.span.line as int);
                if let Ok(ts) = lex(first.body, first.body_start as int, file, first.span.line as int) {
                    lemma_read_push_frame(frames1, FrameView {
                        toks: ts,
                        items: Seq::empty(),
                        attach: AttachView::Region(first),
                        diags: Seq::empty(),
                        depth: top.depth + 1,
                        end: first.span,
                    });
                } else {
                    lemma_read_push(top.items, region_text_item(first));
                    lemma_read_set_top(frames, FrameView { items: top.items.push(region_text_item(first)), ..top1 });
                }
            } else if first.kind == Kind::Word && rest.len() > 0 && rest[0].kind == Kind::Op {
                let rest2 = rest.drop_first();
                let value = rest2[0];
                let rest3 = rest2.drop_first();
                assert(rest3 =~= top.toks.skip(3));
                assert(value == top.toks[2]);
                let header = value.kind == Kind::Word && !value.quoted && rest3.len() > 0
                    && rest3[0].kind == Kind::Open && rest3[0].span.line == value.span.line;
                let rest4 = if header { rest3.drop_first() } else { rest3 };
                assert(header ==> rest4 =~= top.toks.skip(4));
                let op = super::ast::op_of(rest[0].text).unwrap();
                if value.kind == Kind::Open || header {
                    let t4 = FrameView { toks: rest4, ..top };
                    lemma_read_set_top(frames, t4);
                    let f4 = set_top(frames, t4);
                    let p1 = FrameView { toks: Seq::empty(), ..t4 };
                    lemma_read_set_top(f4, p1);
                    lemma_read_push_frame(set_top(f4, p1), FrameView {
                        toks: rest4,
                        items: Seq::empty(),
                        attach: AttachView::Container {
                            entry: Some((first.text, op)),
                            header: if header { Some(value.text) } else { None },
                            span: first.span,
                        },
                        diags: Seq::empty(),
                        depth: top.depth + 1,
                        end: top.end,
                    });
                } else {
                    let item = ItemView {
                        span: Some(crate::source::through(first.span, value.span)),
                        kind: ItemKindView::Entry(EntryView { key: first.text, op, value: ValueView::Scalar(token_scalar(value)) }),
                    };
                    if value.kind == Kind::Word || value.kind == Kind::Math {
                        lemma_token_scalar(value);
                        lemma_read_push(top.items, item);
                        lemma_read_set_top(frames, FrameView { toks: rest3, items: top.items.push(item), ..top });
                    }
                }
            } else if first.kind == Kind::Word {
                let same_line_block = rest.len() > 0 && rest[0].kind == Kind::Open && rest[0].span.line == first.span.line;
                let entry_body = rest.len() > 1 && rest[1].kind == Kind::Word && rest.len() > 2 && rest[2].kind == Kind::Op;
                if same_line_block && (top.attach is Root || entry_body) {
                    assert(rest.drop_first() =~= top.toks.skip(2));
                    let t2 = FrameView {
                        toks: rest.drop_first(),
                        diags: top.diags.push(super::ast::DiagnosticView { kind: super::ast::Repair::OperatorLessEntry, span: first.span, text: first.text }),
                        ..top
                    };
                    lemma_read_set_top(frames, t2);
                    let f2 = set_top(frames, t2);
                    let p1 = FrameView { toks: Seq::empty(), ..t2 };
                    lemma_read_set_top(f2, p1);
                    lemma_read_push_frame(set_top(f2, p1), FrameView {
                        toks: rest.drop_first(),
                        items: Seq::empty(),
                        attach: AttachView::Container { entry: Some((first.text, super::ast::Operator::Assign)), header: None, span: first.span },
                        diags: Seq::empty(),
                        depth: top.depth + 1,
                        end: top.end,
                    });
                } else {
                    let item = ItemView { span: Some(first.span), kind: ItemKindView::Scalar(token_scalar(first)) };
                    lemma_token_scalar(first);
                    lemma_read_push(top.items, item);
                    lemma_read_set_top(frames, FrameView { items: top.items.push(item), ..top1 });
                }
            } else {
                let item = ItemView { span: Some(first.span), kind: ItemKindView::Scalar(token_scalar(first)) };
                lemma_token_scalar(first);
                lemma_read_push(top.items, item);
                lemma_read_set_top(frames, FrameView { items: top.items.push(item), ..top1 });
            }
        }
    }
}

/// One loop iteration of the frame machine keeps what every frame holds, and what it finishes
/// with holds items as reading gives them.
proof fn lemma_iterate_read(frames: Seq<FrameView>, file: Seq<u8>)
    requires
        frames_read(frames),
    ensures
        iterate_spec(frames, file) matches Iteration::Continue(g) ==> frames_read(g),
        iterate_spec(frames, file) matches Iteration::Finished(Ok((items, _))) ==> read_items(items),
{
    reveal(iterate_spec);
    if frames.len() > 0 {
        lemma_advance_read(frames, file);
        match advance_spec(frames, file) {
            Err(e) => {
                super::parser::lemma_last_region(frames, frames.len() as int);
                if let Some(i) = last_region(frames, frames.len() as int) {
                    let kept = frames.take(i);
                    assert forall|k: int| 0 <= k < kept.len() implies frame_read(#[trigger] kept[k]) by {
                        assert(kept[k] == frames[k]);
                    }
                    if kept.len() > 0 {
                        assert(frame_read(kept[kept.len() - 1]));
                        lemma_read_push(kept.last().items, region_text_item(frames[i].attach->Region_0));
                        lemma_read_set_top(kept, FrameView {
                            items: kept.last().items.push(region_text_item(frames[i].attach->Region_0)),
                            ..kept.last()
                        });
                    }
                }
            },
            Ok(g) => {
                if !(g.len() == 0 || g.last().toks.len() > 0 || g.last().attach is Container) {
                    let complete = g.last();
                    assert(frame_read(g[g.len() - 1]));
                    if let AttachView::Region(t) = complete.attach {
                        let rest = g.drop_last();
                        assert forall|k: int| 0 <= k < rest.len() implies frame_read(#[trigger] rest[k]) by {
                            assert(rest[k] == g[k]);
                        }
                        if rest.len() > 0 {
                            let parent = rest.last();
                            assert(frame_read(rest[rest.len() - 1]));
                            let x = complete_region_frame(parent, t, complete.items, complete.diags);
                            if super::parser::needs_verbatim(complete.diags) {
                                lemma_read_push(parent.items, region_text_item(t));
                            } else {
                                lemma_read_push(parent.items, ItemView {
                                    span: Some(t.span),
                                    kind: ItemKindView::Param { name: super::lexer::strip_bang(t.text), negated: super::parser::is_negated(t), items: complete.items },
                                });
                            }
                            lemma_read_set_top(rest, x);
                        }
                    }
                }
            },
        }
    }
}

/// A run that starts from frames as reading leaves them ends with items as reading gives them.
proof fn lemma_run_read(frames: Seq<FrameView>, file: Seq<u8>)
    requires
        frames_read(frames),
    ensures
        run_spec(frames, file) matches Ok((items, _)) ==> read_items(items),
    decreases frames_weight(frames), frames.len(),
{
    lemma_iterate_decreases(frames, file);
    lemma_frames_weight_nonneg(frames);
    lemma_iterate_read(frames, file);
    if let Iteration::Continue(g) = iterate_spec(frames, file) {
        lemma_run_read(g, file);
    }
}

/// Reading a text and writing what was read gives canonical text, which reads back without
/// repairs as the same items apart from source locations, and writes again as the same text:
/// canonical text is a fixpoint of reading and writing. Verbatim regions at the top level need
/// nothing more; one read inside a body must read back alone at the depth where it stands
/// (`regions_fit_below`), which only the nesting limit can prevent.
pub proof fn law_read_write_fixpoint(text: Seq<u8>, file: Seq<u8>)
    ensures
        spec_parse(text, file) matches Ok(doc) ==> (regions_fit_below(doc.items, 0) ==> (spec_serialize(doc.items) matches Ok(out)
            ==> (out.len() < usize::MAX ==> (spec_parse(out, file) matches Ok(again)
            && again.diagnostics.len() == 0
            && strip_items(again.items) == strip_items(doc.items)
            && spec_serialize(again.items) == Ok::<Seq<u8>, ErrorView>(out))))),
{
    reveal(spec_parse);
    let (t, base) = source_text(text);
    lemma_lex_words(t, base, file, 0, 1);
    if let Ok(toks) = lex(t, base, file, 1) {
        let root = root_frame(toks, end_span(text));
        assert(frame_read(root));
        assert(frames_read(seq![root]));
        lemma_run_read(seq![root], file);
        if let Ok((items, diags)) = run_spec(seq![root], file) {
            if regions_fit_below(items, 0) && spec_serialize(items) is Ok && spec_serialize(items)->Ok_0.len() < usize::MAX {
                super::roundtrip::lemma_written_regions_fit(items);
                lemma_read_tree(items, 0);
                lemma_canon_read(items);
                law_tree_roundtrip(items, file);
            }
        }
    }
}

} // verus!
