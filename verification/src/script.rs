//! Game-definition syntax, checked construction, canonical writing, and tree traversal.
mod ast;
mod file_label;
mod entry_spans;
mod fixpoint;
mod lexer;
mod parser;
mod region_read;
mod representable;
mod roundtrip;
mod serialize;
mod spans;
mod walk;

pub use ast::{
    Container, ContainerView, Diagnostic, DiagnosticView, Document, DocumentView, Entry, EntryView,
    IntoText, Item, ItemKind, ItemKindView, ItemView, Operator, Repair, Scalar, ScalarView, Value,
    ValueView, block, boolean, cmp, container, container_view, entry, inline_math, invalid, invalid_error, is_region_text,
    is_scalar, item_view, items_view, kv, law_operator_spelling, list, numeral, op_of, op_spelling,
    param_block, param_text, quoted, region_problem, region_source, region_text_problem, scalar,
    var_ref,
};
pub use entry_spans::{attach_at, body_entry_at, entries_ok, entry_ok, law_entry_spans, scalar_entry_at};
pub use file_label::{law_parse_ignores_file, law_region_text_reads_back, relabel};
pub use fixpoint::law_read_write_fixpoint;
pub use lexer::{Kind, TokenView, lex};
pub use parser::{flat_items, flat_kept, flat_reading, law_region_items_words, parse, region_items, spec_parse};
pub use representable::{
    bare_key, bare_string, bare_token, canonical, canonical_numeral, classify, classify_unquoted,
    is_bare_key, is_bare_string, is_bare_token, is_math_source, is_numeral, is_operator,
    is_param_name, is_quotable_content, is_var_name, is_writable_text, law_canonical_fixpoint,
    law_canonical_value, numerator, pow10, digits_value, whole_part, fraction_part, unsigned_part, find_from,
    math_source, param_name, quotable, spec_canonical_numeral, starts_with_bom, var_name,
    writable_text,
};
pub use roundtrip::{
    canon_items, canon_scalar, canonical_scalar, law_bare_token_one_word, law_quotable_closes,
    fits_all, items_tree_shape, lemma_written_regions_fit, region_fits, region_fits_below, regions_fit, regions_fit_below, law_scalar_text_reads_back, law_serialize_ignores_spans, law_tree_reading,
    law_tree_roundtrip, tree_item, tree_items,
};
pub use region_read::{lemma_problem_free_reads, region_lexes, region_reads_at, tok_fit};
pub use spans::{diags_in, item_in, items_in, law_parse_spans, span_in};
pub use serialize::{
    law_constructed_scalars_write, law_written_documents_end_with_newline, scalar_text, serialize,
    spec_scalar_text, spec_serialize,
};
pub use walk::{
    RegionPolicy, WalkControl, children_view, item_children, law_skip_policy_never_fails,
    law_strip_idempotent, law_walk_preorder, law_walk_step, pending_order, preorder, strip_item,
    strip_items, walk_items, walked, without_spans,
};
