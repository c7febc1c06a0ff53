//! The file label a caller passes only names the file in errors.
use vstd::prelude::*;
use vstd::string::*;
use super::ast::{DiagnosticView, ItemKindView};
use super::lexer::{LexStep, lex, lex_from, lex_step, lemma_lex_step};
use super::parser::{
    FrameView, Iteration, advance_spec, iterate_spec, run_spec, spec_parse, source_text, root_frame, end_span,
    lemma_iterate_decreases, lemma_frames_weight_nonneg, frames_weight,
};
use crate::source::ErrorView;

verus! {

/// An error as it reads under the file label `f`.
pub open spec fn relabel(e: ErrorView, f: Seq<u8>) -> ErrorView {
    ErrorView { file: f, ..e }
}

/// A result as it reads under the file label `f`: values unchanged, errors relabelled.
pub open spec fn relabel_res<T>(r: Result<T, ErrorView>, f: Seq<u8>) -> Result<T, ErrorView> {
    match r {
        Ok(v) => Ok(v),
        Err(e) => Err(relabel(e, f)),
    }
}

proof fn lemma_step_label(b: Seq<u8>, base: int, f1: Seq<u8>, f2: Seq<u8>, pos: int, line: int)
    ensures
        lex_step(b, base, f2, pos, line) == match lex_step(b, base, f1, pos, line) {
            LexStep::Fail(e) => LexStep::Fail(relabel(e, f2)),
            s => s,
        },
{
}

/// Tokenizing under another file label gives the same tokens, or the same error relabelled.
pub proof fn lemma_lex_label(b: Seq<u8>, base: int, f1: Seq<u8>, f2: Seq<u8>, pos: int, line: int)
    ensures
        lex_from(b, base, f2, pos, line) == relabel_res(lex_from(b, base, f1, pos, line), f2),
    decreases b.len() - pos,
{
    if 0 <= pos < b.len() {
        lemma_lex_step(b, base, f1, pos, line);
        lemma_step_label(b, base, f1, f2, pos, line);
        match lex_step(b, base, f1, pos, line) {
            LexStep::Skip(p, l) => lemma_lex_label(b, base, f1, f2, p, l),
            LexStep::Tok(t, p, l) => lemma_lex_label(b, base, f1, f2, p, l),
            _ => {},
        }
    }
}

proof fn lemma_push_label(frames: Seq<FrameView>, f1: Seq<u8>, f2: Seq<u8>, attach: super::parser::AttachView)
    ensures
        super::parser::push_container_spec(frames, f2, attach) == relabel_res(super::parser::push_container_spec(frames, f1, attach), f2),
{
}

/// One step of the frame machine under another file label: the same frames, or the same error relabelled.
#[verifier::rlimit(60)]
#[verifier::spinoff_prover]
proof fn lemma_advance_label(frames: Seq<FrameView>, f1: Seq<u8>, f2: Seq<u8>)
    ensures
        advance_spec(frames, f2) == relabel_res(advance_spec(frames, f1), f2),
{
    let top = frames.last();
    let first = top.toks[0];
    let rest = top.toks.drop_first();
    let rest2 = rest.drop_first();
    let value = rest2[0];
    let rest3 = rest2.drop_first();
    let header = value.kind == super::lexer::Kind::Word && !value.quoted && rest3.len() > 0
        && rest3[0].kind == super::lexer::Kind::Open && rest3[0].span.line == value.span.line;
    let rest4 = if header { rest3.drop_first() } else { rest3 };
    lemma_lex_label(first.body, first.body_start as int, f1, f2, 0, first.span.line as int);
    lemma_push_label(
        super::parser::set_top(frames, FrameView { toks: rest, ..top }),
        f1,
        f2,
        super::parser::AttachView::Container { entry: None, header: None, span: first.span },
    );
    lemma_push_label(
        super::parser::set_top(frames, FrameView { toks: rest4, ..top }),
        f1,
        f2,
        super::parser::AttachView::Container {
            entry: Some((first.text, super::ast::op_of(rest[0].text)->Some_0)),
            header: if header { Some(value.text) } else { None },
            span: first.span,
        },
    );
    lemma_push_label(
        super::parser::set_top(frames, FrameView {
            toks: rest.drop_first(),
            diags: top.diags.push(DiagnosticView { kind: super::ast::Repair::OperatorLessEntry, span: first.span, text: first.text }),
            ..top
        }),
        f1,
        f2,
        super::parser::AttachView::Container { entry: Some((first.text, super::ast::Operator::Assign)), header: None, span: first.span },
    );
}

proof fn lemma_iterate_label(frames: Seq<FrameView>, f1: Seq<u8>, f2: Seq<u8>)
    ensures
        match (iterate_spec(frames, f1), iterate_spec(frames, f2)) {
            (Iteration::Continue(g1), Iteration::Continue(g2)) => g1 == g2,
            (Iteration::Finished(r1), Iteration::Finished(r2)) => r2 == relabel_res(r1, f2),
            _ => false,
        },
{
    reveal(iterate_spec);
    lemma_advance_label(frames, f1, f2);
}

proof fn lemma_run_label(frames: Seq<FrameView>, f1: Seq<u8>, f2: Seq<u8>)
    ensures
        run_spec(frames, f2) == relabel_res(run_spec(frames, f1), f2),
    decreases frames_weight(frames), frames.len(),
{
    lemma_iterate_decreases(frames, f1);
    lemma_frames_weight_nonneg(frames);
    lemma_iterate_label(frames, f1, f2);
    if let Iteration::Continue(g) = iterate_spec(frames, f1) {
        lemma_run_label(g, f1, f2);
    }
}

/// Reading under another file label gives the same items and repairs, with the document and any
/// error naming the new label; nothing else depends on the label.
pub proof fn law_parse_ignores_file(src: Seq<u8>, f1: Seq<u8>, f2: Seq<u8>)
    ensures
        spec_parse(src, f2) == match spec_parse(src, f1) {
            Ok(d) => Ok(super::ast::DocumentView { file: f2, ..d }),
            Err(e) => Err(relabel(e, f2)),
        },
{
    reveal(spec_parse);
    let (t, base) = source_text(src);
    lemma_lex_label(t, base, f1, f2, 0, 1);
    if let Ok(toks) = lex(t, base, f1, 1) {
        lemma_run_label(seq![root_frame(toks, end_span(src))], f1, f2);
    }
}


/// A verbatim region that the checked constructor accepts reads back as itself, alone and without
/// repairs, under any file label.
pub proof fn law_region_text_reads_back(name: Seq<u8>, negated: bool, text: Seq<u8>, f: Seq<u8>)
    ensures
        super::ast::region_problem(name, negated, text) is None ==> (spec_parse(super::ast::region_source(name, negated, text), f) matches Ok(d)
            && d.diagnostics.len() == 0 && d.items.len() == 1
            && d.items[0].kind == (ItemKindView::ParamText { name, negated, text })),
{
    law_parse_ignores_file(super::ast::region_source(name, negated, text), "<region>".spec_bytes(), f);
}

} // verus!
