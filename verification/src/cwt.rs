//! CWT syntax with raw values, attached annotations, and explicit diagnostics.
use vstd::prelude::*;
use vstd::string::*;
use vstd::utf8::*;
use crate::source::{
    Cursor, ErrorKind, ErrorView, Scanner, Span, SyntaxError, line_end, spec_quoted_end, through,
    lemma_quote_close,
};
use crate::text::{
    boundary, byte_len, bytes, lemma_ascii_boundary, lemma_ascii_next, lemma_newlines_bound,
    lemma_valid_sub, newlines, substring,
};
use crate::MAX_NESTING_DEPTH;

verus! {

broadcast use vstd::seq_lib::group_seq_properties;

/// CWT operator spelling; distinct from game-script comparisons.
#[derive(Clone, Copy, Debug, PartialEq, Eq, Structural)]
pub enum Operator {
    /// Assignment.
    Assign,
    /// CWT comparison.
    Equal,
}

/// Uninterpreted scalar spelling.
#[derive(Clone, Debug, PartialEq, Eq)]
pub struct Scalar {
    /// Text excluding surrounding quotes.
    pub text: String,
    /// Whether the scalar was quoted.
    pub quoted: bool,
    /// Source location including quotes when present.
    pub span: Span,
}

/// A scalar or ordered CWT block.
#[derive(Debug, PartialEq, Eq)]
pub enum Value {
    /// Raw scalar text, never boolean/numeric interpretation.
    Scalar(Scalar),
    /// Braced sequence preserving duplicates and bare values.
    Block {
        /// Ordered body.
        nodes: Vec<Node>,
        /// Opening through closing brace.
        span: Span,
    },
}

/// Semantic CWT comment retained with its original spelling and location.
#[derive(Clone, Debug, PartialEq, Eq)]
pub struct Annotation {
    /// Number of hashes, distinguishing options from documentation.
    pub hashes: usize,
    /// Text following the hashes, excluding surrounding whitespace.
    pub text: String,
    /// Complete source span.
    pub span: Span,
}

/// A keyed rule or bare value with annotations bound to this entry only.
#[derive(Debug, PartialEq, Eq)]
pub struct Node {
    /// Absent for a bare value.
    pub key: Option<Scalar>,
    /// Present exactly when the key is present.
    pub op: Option<Operator>,
    /// Raw value or nested rules.
    pub value: Value,
    /// Preceding option and documentation comments in source order.
    pub annotations: Vec<Annotation>,
    /// Key/value through the final token, excluding preceding annotations.
    pub span: Span,
}

/// Input that could not be bound or parsed; never silently discarded.
#[derive(Clone, Debug, PartialEq, Eq)]
pub struct Diagnostic {
    /// `syntax` marks malformed input; `orphan-annotation` marks unattached metadata;
    /// `nesting-limit` marks input beyond the supported nesting depth.
    pub kind: String,
    /// Source location.
    pub span: Span,
    /// Diagnostic explanation.
    pub message: String,
}

/// A partial or complete parse. Nonempty diagnostics must be surfaced by consumers.
#[derive(Debug, PartialEq, Eq)]
pub struct Document {
    /// Caller-supplied filename.
    pub file: String,
    /// Parsed nodes, excluding failed statements.
    pub nodes: Vec<Node>,
    /// Unparsed source and unattached metadata.
    pub diagnostics: Vec<Diagnostic>,
}

/// A scalar with its text as UTF-8 bytes.
pub struct ScalarView {
    pub text: Seq<u8>,
    pub quoted: bool,
    pub span: Span,
}

/// An annotation with its text as UTF-8 bytes.
pub struct AnnotationView {
    pub hashes: nat,
    pub text: Seq<u8>,
    pub span: Span,
}

/// A value with texts as UTF-8 bytes.
pub enum ValueView {
    Scalar(ScalarView),
    Block { nodes: Seq<NodeView>, span: Span },
}

/// A node with texts as UTF-8 bytes.
pub struct NodeView {
    pub key: Option<ScalarView>,
    pub op: Option<Operator>,
    pub value: ValueView,
    pub annotations: Seq<AnnotationView>,
    pub span: Span,
}

/// A diagnostic with texts as UTF-8 bytes.
pub struct DiagnosticView {
    pub kind: Seq<u8>,
    pub span: Span,
    pub message: Seq<u8>,
}

/// A document with texts as UTF-8 bytes.
pub struct DocumentView {
    pub file: Seq<u8>,
    pub nodes: Seq<NodeView>,
    pub diagnostics: Seq<DiagnosticView>,
}

impl View for Scalar {
    type V = ScalarView;

    open spec fn view(&self) -> ScalarView {
        ScalarView { text: bytes(self.text), quoted: self.quoted, span: self.span }
    }
}

impl View for Annotation {
    type V = AnnotationView;

    open spec fn view(&self) -> AnnotationView {
        AnnotationView { hashes: self.hashes as nat, text: bytes(self.text), span: self.span }
    }
}

impl View for Diagnostic {
    type V = DiagnosticView;

    open spec fn view(&self) -> DiagnosticView {
        DiagnosticView { kind: bytes(self.kind), span: self.span, message: bytes(self.message) }
    }
}

pub open spec fn opt_scalar(s: Option<Scalar>) -> Option<ScalarView> {
    match s {
        Some(x) => Some(x@),
        None => None,
    }
}

pub open spec fn annotations_view(s: Seq<Annotation>) -> Seq<AnnotationView> {
    s.map_values(|a: Annotation| a@)
}

pub open spec fn diagnostics_view(s: Seq<Diagnostic>) -> Seq<DiagnosticView> {
    s.map_values(|d: Diagnostic| d@)
}

pub open spec fn value_view(v: Value) -> ValueView
    decreases v,
{
    match v {
        Value::Scalar(s) => ValueView::Scalar(s@),
        Value::Block { nodes, span } => ValueView::Block { nodes: nodes_view(nodes@), span },
    }
}

pub open spec fn nodes_view(s: Seq<Node>) -> Seq<NodeView>
    decreases s,
{
    if s.len() == 0 {
        Seq::empty()
    } else {
        seq![node_view(s[0])] + nodes_view(s.subrange(1, s.len() as int))
    }
}

pub open spec fn node_view(n: Node) -> NodeView
    decreases n,
{
    NodeView {
        key: opt_scalar(n.key),
        op: n.op,
        value: value_view(n.value),
        annotations: annotations_view(n.annotations@),
        span: n.span,
    }
}

impl View for Document {
    type V = DocumentView;

    open spec fn view(&self) -> DocumentView {
        DocumentView {
            file: bytes(self.file),
            nodes: nodes_view(self.nodes@),
            diagnostics: diagnostics_view(self.diagnostics@),
        }
    }
}

pub proof fn lemma_nodes_view(s: Seq<Node>)
    ensures
        nodes_view(s).len() == s.len(),
        forall|j: int| 0 <= j < s.len() ==> #[trigger] nodes_view(s)[j] == node_view(s[j]),
    decreases s.len(),
{
    if s.len() > 0 {
        lemma_nodes_view(s.subrange(1, s.len() as int));
        assert forall|j: int| 0 <= j < s.len() implies #[trigger] nodes_view(s)[j] == node_view(s[j]) by {
            if j > 0 {
                assert(s.subrange(1, s.len() as int)[j - 1] == s[j]);
            }
        }
    }
}

pub proof fn lemma_nodes_view_push(s: Seq<Node>, n: Node)
    ensures
        nodes_view(s.push(n)) == nodes_view(s).push(node_view(n)),
{
    lemma_nodes_view(s);
    lemma_nodes_view(s.push(n));
    assert(nodes_view(s.push(n)) =~= nodes_view(s).push(node_view(n)));
}

fn copy_scalar(s: &Scalar) -> (r: Scalar)
    ensures
        r@ == s@,
{
    Scalar { text: s.text.clone(), quoted: s.quoted, span: s.span }
}

fn copy_annotations(a: &Vec<Annotation>) -> (r: Vec<Annotation>)
    ensures
        annotations_view(r@) == annotations_view(a@),
{
    let mut out: Vec<Annotation> = Vec::new();
    let mut i: usize = 0;
    while i < a.len()
        invariant
            i <= a@.len(),
            out@.len() == i,
            forall|j: int| 0 <= j < i ==> (#[trigger] out@[j])@ == a@[j]@,
        decreases a@.len() - i,
    {
        let x = &a[i];
        out.push(Annotation { hashes: x.hashes, text: x.text.clone(), span: x.span });
        i += 1;
    }
    assert(annotations_view(out@) =~= annotations_view(a@));
    out
}

fn copy_value(v: &Value) -> (r: Value)
    ensures
        value_view(r) == value_view(*v),
    decreases v, 2nat,
{
    match v {
        Value::Scalar(s) => Value::Scalar(copy_scalar(s)),
        Value::Block { nodes, span } => Value::Block { nodes: copy_nodes(nodes), span: *span },
    }
}

fn copy_node(n: &Node) -> (r: Node)
    ensures
        node_view(r) == node_view(*n),
    decreases n, 0nat,
{
    let key = match &n.key {
        Some(k) => Some(copy_scalar(k)),
        None => None,
    };
    Node { key, op: n.op, value: copy_value(&n.value), annotations: copy_annotations(&n.annotations), span: n.span }
}

fn copy_nodes(nodes: &Vec<Node>) -> (r: Vec<Node>)
    ensures
        nodes_view(r@) == nodes_view(nodes@),
    decreases nodes@, 1nat,
{
    let mut out: Vec<Node> = Vec::new();
    let mut i: usize = 0;
    proof {
        lemma_nodes_view(nodes@);
        lemma_nodes_view(out@);
    }
    while i < nodes.len()
        invariant
            i <= nodes@.len(),
            nodes_view(out@) == nodes_view(nodes@).subrange(0, i as int),
            nodes_view(nodes@).len() == nodes@.len(),
            forall|k: int| 0 <= k < nodes@.len() ==> #[trigger] nodes_view(nodes@)[k] == node_view(nodes@[k]),
        decreases nodes@.len() - i,
    {
        assert(decreases_to!(nodes@ => nodes@[i as int]));
        let c = copy_node(&nodes[i]);
        proof {
            lemma_nodes_view_push(out@, c);
        }
        out.push(c);
        i += 1;
        assert(nodes_view(out@) =~= nodes_view(nodes@).subrange(0, i as int));
    }
    assert(nodes_view(nodes@).subrange(0, i as int) =~= nodes_view(nodes@));
    out
}

impl Clone for Value {
    /// A copy equal in every field.
    fn clone(&self) -> (r: Self)
        ensures
            value_view(r) == value_view(*self),
    {
        copy_value(self)
    }
}

impl Clone for Node {
    /// A copy equal in every field.
    fn clone(&self) -> (r: Self)
        ensures
            node_view(r) == node_view(*self),
    {
        copy_node(self)
    }
}

impl Clone for Document {
    /// A copy equal in every field.
    fn clone(&self) -> (r: Self)
        ensures
            r@ == self@,
    {
        let mut diagnostics: Vec<Diagnostic> = Vec::new();
        let mut i: usize = 0;
        while i < self.diagnostics.len()
            invariant
                i <= self.diagnostics@.len(),
                diagnostics@.len() == i,
                forall|j: int| 0 <= j < i ==> (#[trigger] diagnostics@[j])@ == self.diagnostics@[j]@,
            decreases self.diagnostics@.len() - i,
        {
            let d = &self.diagnostics[i];
            diagnostics.push(Diagnostic { kind: d.kind.clone(), span: d.span, message: d.message.clone() });
            i += 1;
        }
        assert(diagnostics_view(diagnostics@) =~= diagnostics_view(self.diagnostics@));
        Document { file: self.file.clone(), nodes: copy_nodes(&self.nodes), diagnostics }
    }
}

/// The location of a value: its scalar's span, or the block's braces.
pub open spec fn value_span(v: ValueView) -> Span {
    match v {
        ValueView::Scalar(s) => s.span,
        ValueView::Block { span, .. } => span,
    }
}

impl Value {
    /// Location of this value.
    pub fn span(&self) -> (r: Span)
        ensures
            r == value_span(value_view(*self)),
    {
        match self {
            Self::Scalar(s) => s.span,
            Self::Block { span, .. } => *span,
        }
    }
}

// ---------------------------------------------------------------- tokens

/// A lexical token with texts as UTF-8 bytes.
pub enum TokView {
    Scalar(ScalarView),
    Op(Operator, Span),
    Open(Span),
    Close(Span),
    Annot(AnnotationView),
}

pub open spec fn tok_span(t: TokView) -> Span {
    match t {
        TokView::Scalar(s) => s.span,
        TokView::Op(_, s) => s,
        TokView::Open(s) => s,
        TokView::Close(s) => s,
        TokView::Annot(a) => a.span,
    }
}

/// Whitespace between tokens.
pub open spec fn gap_byte(c: u8) -> bool {
    c == 32u8 || c == 9u8 || c == 13u8 || c == 10u8
}

/// A byte that ends an unquoted scalar.
pub open spec fn stop_byte(c: u8) -> bool {
    gap_byte(c) || c == 123u8 || c == 125u8 || c == 61u8 || c == 35u8 || c == 34u8
}

/// The number of `#` bytes starting at `i`.
pub open spec fn hash_run(b: Seq<u8>, i: int) -> nat
    decreases b.len() - i,
{
    if 0 <= i < b.len() && b[i] == 35u8 {
        1 + hash_run(b, i + 1)
    } else {
        0
    }
}

/// The end of the unquoted scalar starting at `i`.
pub open spec fn scalar_end(b: Seq<u8>, i: int) -> int
    decreases b.len() - i,
{
    if i < 0 || i >= b.len() {
        b.len() as int
    } else if stop_byte(b[i]) {
        i
    } else {
        scalar_end(b, i + 1)
    }
}

/// The length of a Unicode `White_Space` character encoded at `i`, within `b[..e]`, or 0.
pub open spec fn space_at(b: Seq<u8>, i: int, e: int) -> int {
    if 0 <= i < e && (b[i] == 32u8 || (9u8 <= b[i] <= 13u8)) {
        1
    } else if 0 <= i && i + 1 < e && b[i] == 0xC2u8 && (b[i + 1] == 0x85u8 || b[i + 1] == 0xA0u8) {
        2
    } else if 0 <= i && i + 2 < e && three_byte_space(b[i], b[i + 1], b[i + 2]) {
        3
    } else {
        0
    }
}

/// The three-byte encodings of U+1680, U+2000 through U+200A, U+2028, U+2029, U+202F, U+205F and U+3000.
pub open spec fn three_byte_space(x: u8, y: u8, z: u8) -> bool {
    ||| x == 0xE1u8 && y == 0x9Au8 && z == 0x80u8
    ||| x == 0xE2u8 && y == 0x80u8 && ((0x80u8 <= z <= 0x8Au8) || z == 0xA8u8 || z == 0xA9u8 || z == 0xAFu8)
    ||| x == 0xE2u8 && y == 0x81u8 && z == 0x9Fu8
    ||| x == 0xE3u8 && y == 0x80u8 && z == 0x80u8
}

/// The length of a Unicode `White_Space` character encoded just before `j`, within `b[s..]`, or 0.
pub open spec fn space_before(b: Seq<u8>, s: int, j: int) -> int {
    if s <= j - 1 && j <= b.len() && (b[j - 1] == 32u8 || (9u8 <= b[j - 1] <= 13u8)) {
        1
    } else if s <= j - 2 && j <= b.len() && b[j - 2] == 0xC2u8 && (b[j - 1] == 0x85u8 || b[j - 1] == 0xA0u8) {
        2
    } else if s <= j - 3 && j <= b.len() && three_byte_space(b[j - 3], b[j - 2], b[j - 1]) {
        3
    } else {
        0
    }
}

/// Where the text of `b[i..e]` starts once leading whitespace is removed.
pub open spec fn trim_start(b: Seq<u8>, i: int, e: int) -> int
    decreases e - i,
{
    if i < e && space_at(b, i, e) > 0 {
        trim_start(b, i + space_at(b, i, e), e)
    } else {
        i
    }
}

/// Where the text of `b[s..j]` ends once trailing whitespace is removed.
pub open spec fn trim_end(b: Seq<u8>, s: int, j: int) -> int
    decreases j - s,
{
    if s < j && space_before(b, s, j) > 0 {
        trim_end(b, s, j - space_before(b, s, j))
    } else {
        j
    }
}

/// One step of the CWT tokenizer at a position that holds a byte.
pub enum CwtStep {
    Skip(int, int),
    Tok(TokView, int, int),
    Fail(ErrorView),
}

pub open spec fn unterminated(file: Seq<u8>, at: Span, end: Span) -> ErrorView {
    ErrorView { file, span: through(at, end), kind: ErrorKind::Syntax, message: "Unterminated quoted string".spec_bytes() }
}

pub open spec fn point(pos: int, line: int) -> Span {
    Span { start: pos as usize, end: pos as usize, line: line as usize, end_line: line as usize }
}

pub open spec fn cwt_step(b: Seq<u8>, file: Seq<u8>, end: Span, pos: int, line: int) -> CwtStep {
    let c = b[pos];
    let at = point(pos, line);
    if gap_byte(c) {
        CwtStep::Skip(pos + 1, if c == 10u8 { line + 1 } else { line })
    } else if c == 35u8 {
        let h = hash_run(b, pos);
        let a = pos + h;
        let e = line_end(b, a);
        if 2 <= h <= 4 {
            let ts = trim_start(b, a, e);
            let te = trim_end(b, ts, e);
            CwtStep::Tok(
                TokView::Annot(AnnotationView { hashes: h, text: b.subrange(ts, te), span: Span { end: e as usize, ..at } }),
                e,
                line,
            )
        } else {
            CwtStep::Skip(e, line)
        }
    } else if c == 123u8 {
        CwtStep::Tok(TokView::Open(Span { end: (pos + 1) as usize, ..at }), pos + 1, line)
    } else if c == 125u8 {
        CwtStep::Tok(TokView::Close(Span { end: (pos + 1) as usize, ..at }), pos + 1, line)
    } else if c == 61u8 {
        if pos + 1 < b.len() && b[pos + 1] == 61u8 {
            CwtStep::Tok(TokView::Op(Operator::Equal, Span { end: (pos + 2) as usize, ..at }), pos + 2, line)
        } else {
            CwtStep::Tok(TokView::Op(Operator::Assign, Span { end: (pos + 1) as usize, ..at }), pos + 1, line)
        }
    } else if c == 34u8 {
        match spec_quoted_end(b, pos) {
            Some(q) => {
                let l = line + newlines(b, pos, q + 1);
                CwtStep::Tok(
                    TokView::Scalar(ScalarView {
                        text: b.subrange(pos + 1, q),
                        quoted: true,
                        span: Span { end: (q + 1) as usize, end_line: l as usize, ..at },
                    }),
                    q + 1,
                    l,
                )
            },
            None => CwtStep::Fail(unterminated(file, at, end)),
        }
    } else {
        let w = scalar_end(b, pos);
        CwtStep::Tok(
            TokView::Scalar(ScalarView { text: b.subrange(pos, w), quoted: false, span: Span { end: w as usize, ..at } }),
            w,
            line,
        )
    }
}

proof fn lemma_hash_run(b: Seq<u8>, i: int)
    requires
        0 <= i,
    ensures
        i + hash_run(b, i) <= b.len() || hash_run(b, i) == 0,
        forall|k: int| i <= k < i + hash_run(b, i) ==> b[k] == 35u8,
        i + hash_run(b, i) < b.len() ==> b[i + hash_run(b, i)] != 35u8,
    decreases b.len() - i,
{
    if 0 <= i < b.len() && b[i] == 35u8 {
        lemma_hash_run(b, i + 1);
    }
}

proof fn lemma_scalar_end(b: Seq<u8>, i: int)
    requires
        0 <= i <= b.len(),
    ensures
        i <= scalar_end(b, i) <= b.len(),
        scalar_end(b, i) < b.len() ==> stop_byte(b[scalar_end(b, i)]),
        forall|k: int| i <= k < scalar_end(b, i) ==> !stop_byte(b[k]),
    decreases b.len() - i,
{
    if i < b.len() && !stop_byte(b[i]) {
        lemma_scalar_end(b, i + 1);
    }
}

proof fn lemma_line_end_bounds(b: Seq<u8>, i: int)
    requires
        0 <= i <= b.len(),
    ensures
        i <= line_end(b, i) <= b.len(),
        line_end(b, i) < b.len() ==> b[line_end(b, i)] == 10u8,
        forall|k: int| i <= k < line_end(b, i) ==> b[k] != 10u8,
    decreases b.len() - i,
{
    if i < b.len() && b[i] != 10u8 {
        lemma_line_end_bounds(b, i + 1);
    }
}

/// Every step moves forward.
proof fn lemma_cwt_step(b: Seq<u8>, file: Seq<u8>, end: Span, pos: int, line: int)
    requires
        0 <= pos < b.len(),
    ensures
        match cwt_step(b, file, end, pos, line) {
            CwtStep::Skip(p, _) => pos < p <= b.len(),
            CwtStep::Tok(_, p, _) => pos < p <= b.len(),
            CwtStep::Fail(_) => true,
        },
{
    let c = b[pos];
    if c == 35u8 {
        lemma_hash_run(b, pos);
        lemma_line_end_bounds(b, pos + hash_run(b, pos));
    } else if c == 34u8 {
        lemma_quote_close(b, pos + 1, false);
    } else if !gap_byte(c) {
        lemma_scalar_end(b, pos);
    }
}

/// The tokens from `pos` on, and the error that stopped the tokenizer, if any.
pub open spec fn cwt_lex_from(b: Seq<u8>, file: Seq<u8>, end: Span, pos: int, line: int) -> (Seq<TokView>, Option<ErrorView>)
    decreases b.len() - pos,
{
    if pos < 0 || pos >= b.len() {
        (Seq::empty(), None)
    } else {
        match cwt_step(b, file, end, pos, line) {
            CwtStep::Skip(p, l) => if p <= pos || p > b.len() {
                (Seq::empty(), None)
            } else {
                cwt_lex_from(b, file, end, p, l)
            },
            CwtStep::Tok(t, p, l) => if p <= pos || p > b.len() {
                (Seq::empty(), None)
            } else {
                let (ts, e) = cwt_lex_from(b, file, end, p, l);
                (seq![t] + ts, e)
            },
            CwtStep::Fail(e) => (Seq::empty(), Some(e)),
        }
    }
}

/// The tokens of a CWT source; a leading byte-order mark is skipped.
pub open spec fn cwt_tokens(b: Seq<u8>, file: Seq<u8>, end: Span) -> (Seq<TokView>, Option<ErrorView>) {
    cwt_lex_from(b, file, end, if crate::script::starts_with_bom(b) { 3 } else { 0 }, 1)
}

enum Token {
    Scalar(Scalar),
    Op(Operator, Span),
    Open(Span),
    Close(Span),
    Annotation(Annotation),
}

impl View for Token {
    type V = TokView;

    closed spec fn view(&self) -> TokView {
        match *self {
            Token::Scalar(s) => TokView::Scalar(s@),
            Token::Op(o, s) => TokView::Op(o, s),
            Token::Open(s) => TokView::Open(s),
            Token::Close(s) => TokView::Close(s),
            Token::Annotation(a) => TokView::Annot(a@),
        }
    }
}

spec fn toks_view(s: Seq<Token>) -> Seq<TokView> {
    s.map_values(|t: Token| t@)
}

spec fn join(ts: Seq<TokView>, r: (Seq<TokView>, Option<ErrorView>)) -> (Seq<TokView>, Option<ErrorView>) {
    (ts + r.0, r.1)
}

fn hash_count(b: &[u8], i: usize) -> (r: usize)
    requires
        i <= b@.len(),
    ensures
        r == hash_run(b@, i as int),
        i + r <= b@.len(),
{
    let mut j = i;
    while j < b.len() && b[j] == 35
        invariant
            i <= j <= b@.len(),
            hash_run(b@, i as int) == (j - i) + hash_run(b@, j as int),
        decreases b@.len() - j,
    {
        j += 1;
    }
    j - i
}

fn scalar_end_at(b: &[u8], i: usize) -> (r: usize)
    requires
        i <= b@.len(),
    ensures
        r == scalar_end(b@, i as int),
{
    let mut j = i;
    while j < b.len() && !(b[j] == 32 || b[j] == 9 || b[j] == 13 || b[j] == 10 || b[j] == 123 || b[j] == 125
        || b[j] == 61 || b[j] == 35 || b[j] == 34)
        invariant
            i <= j <= b@.len(),
            scalar_end(b@, i as int) == scalar_end(b@, j as int),
        decreases b@.len() - j,
    {
        j += 1;
    }
    j
}

fn is_three_byte_space(x: u8, y: u8, z: u8) -> (r: bool)
    ensures
        r == three_byte_space(x, y, z),
{
    (x == 0xE1 && y == 0x9A && z == 0x80) || (x == 0xE2 && y == 0x80 && ((0x80 <= z && z <= 0x8A) || z == 0xA8
        || z == 0xA9 || z == 0xAF)) || (x == 0xE2 && y == 0x81 && z == 0x9F) || (x == 0xE3 && y == 0x80 && z
        == 0x80)
}

fn space_at_exec(b: &[u8], i: usize, e: usize) -> (r: usize)
    requires
        e <= b@.len(),
    ensures
        r == space_at(b@, i as int, e as int),
{
    if i < e && (b[i] == 32 || (9 <= b[i] && b[i] <= 13)) {
        1
    } else if i < e && e - i > 1 && b[i] == 0xC2 && (b[i + 1] == 0x85 || b[i + 1] == 0xA0) {
        2
    } else if i < e && e - i > 2 && is_three_byte_space(b[i], b[i + 1], b[i + 2]) {
        3
    } else {
        0
    }
}

fn space_before_exec(b: &[u8], s: usize, j: usize) -> (r: usize)
    requires
        s <= j <= b@.len(),
    ensures
        r == space_before(b@, s as int, j as int),
{
    if j - s >= 1 && (b[j - 1] == 32 || (9 <= b[j - 1] && b[j - 1] <= 13)) {
        1
    } else if j - s >= 2 && b[j - 2] == 0xC2 && (b[j - 1] == 0x85 || b[j - 1] == 0xA0) {
        2
    } else if j - s >= 3 && is_three_byte_space(b[j - 3], b[j - 2], b[j - 1]) {
        3
    } else {
        0
    }
}

/// Trims `White_Space` characters from both ends of `b[a..e]`.
fn trim_range(b: &[u8], a: usize, e: usize) -> (r: (usize, usize))
    requires
        a <= e <= b@.len(),
        valid_utf8(b@),
        boundary(b@, a as int),
        boundary(b@, e as int),
    ensures
        r.0 == trim_start(b@, a as int, e as int),
        r.1 == trim_end(b@, r.0 as int, e as int),
        a <= r.0 <= r.1 <= e,
        boundary(b@, r.0 as int),
        boundary(b@, r.1 as int),
{
    let mut i = a;
    loop
        invariant
            a <= i <= e <= b@.len(),
            valid_utf8(b@),
            boundary(b@, i as int),
            trim_start(b@, a as int, e as int) == trim_start(b@, i as int, e as int),
        ensures
            a <= i <= e,
            boundary(b@, i as int),
            trim_start(b@, a as int, e as int) == i,
        decreases e - i,
    {
        let w = space_at_exec(b, i, e);
        if i >= e || w == 0 {
            break;
        }
        proof {
            if w == 1 {
                lemma_ascii_next(b@, i as int);
            } else {
                crate::text::lemma_char_next(b@, i as int, w as int);
            }
        }
        i += w;
    }
    let mut j = e;
    loop
        invariant
            i <= j <= e <= b@.len(),
            boundary(b@, j as int),
            trim_end(b@, i as int, e as int) == trim_end(b@, i as int, j as int),
        ensures
            i <= j <= e,
            boundary(b@, j as int),
            trim_end(b@, i as int, e as int) == j,
        decreases j - i,
    {
        let w = space_before_exec(b, i, j);
        if j <= i || w == 0 {
            break;
        }
        j -= w;
    }
    (i, j)
}

pub open spec fn opt_error(e: Option<SyntaxError>) -> Option<ErrorView> {
    match e {
        Some(x) => Some(x@),
        None => None,
    }
}

proof fn lemma_join_push(ts: Seq<TokView>, t: TokView, r: (Seq<TokView>, Option<ErrorView>))
    ensures
        join(ts, (seq![t] + r.0, r.1)) == join(ts.push(t), r),
{
    assert(ts + (seq![t] + r.0) =~= ts.push(t) + r.0);
}

proof fn lemma_toks_push(s: Seq<Token>, t: Token)
    ensures
        toks_view(s.push(t)) == toks_view(s).push(t@),
{
    assert(toks_view(s.push(t)) =~= toks_view(s).push(t@));
}

/// The annotation (or skipped comment) whose hashes start at the scanner's position.
#[verifier::rlimit(40)]
fn comment_token<'a>(s: &mut Scanner<'a>, b: &'a [u8], n: usize) -> (r: Option<Token>)
    requires
        old(s).wf(),
        old(s).base == 0,
        b@ == old(s).src(),
        n == b@.len(),
        valid_utf8(b@),
        old(s).offset < n,
        b@[old(s).offset as int] == 35u8,
    ensures
        final(s).wf(),
        final(s).text == old(s).text,
        final(s).base == 0,
        match cwt_step(b@, Seq::empty(), old(s).mark_spec(), old(s).offset as int, old(s).line as int) {
            CwtStep::Skip(p, l) => r is None && final(s).offset == p && final(s).line == l,
            CwtStep::Tok(t, p, l) => r matches Some(x) && x@ == t && final(s).offset == p && final(s).line == l,
            CwtStep::Fail(_) => false,
        },
{
    let pos = s.offset;
    let start = s.mark();
    let h = hash_count(b, pos);
    proof {
        lemma_hash_run(b@, pos as int);
        lemma_ascii_next(b@, pos + h - 1);
        crate::text::lemma_no_newlines(b@, pos as int, pos + h);
    }
    s.advance(h);
    let a = s.offset;
    proof {
        lemma_line_end_bounds(b@, a as int);
    }
    s.comment();
    let e = s.offset;
    if h < 2 || h > 4 {
        return None;
    }
    let (ts, te) = trim_range(b, a, e);
    let content = substring(s.text, ts, te);
    Some(Token::Annotation(Annotation { hashes: h, text: content, span: s.finish(start) }))
}

/// The next token, `None` after whitespace or a skipped comment, or the lexical error.
#[verifier::rlimit(60)]
fn next_token<'a>(s: &mut Scanner<'a>, b: &'a [u8], n: usize, file: &str, end: Span) -> (r: Result<Option<Token>, SyntaxError>)
    requires
        old(s).wf(),
        old(s).base == 0,
        b@ == old(s).src(),
        n == b@.len(),
        valid_utf8(b@),
        old(s).offset < n,
    ensures
        r is Ok ==> final(s).wf(),
        final(s).text == old(s).text,
        final(s).base == 0,
        match cwt_step(b@, file.spec_bytes(), end, old(s).offset as int, old(s).line as int) {
            CwtStep::Skip(p, l) => r == Ok::<Option<Token>, SyntaxError>(None) && final(s).offset == p && final(s).line == l,
            CwtStep::Tok(t, p, l) => r matches Ok(Some(x)) && x@ == t && final(s).offset == p && final(s).line == l,
            CwtStep::Fail(e) => r matches Err(x) && x@ == e,
        },
{
    let pos = s.offset;
    let ghost line = s.line as int;
    let ch = b[pos];
    let start = s.mark();
    proof {
        assert(boundary(b@, pos as int));
    }
    if ch == 32 || ch == 9 || ch == 13 || ch == 10 {
        proof {
            lemma_ascii_next(b@, pos as int);
            assert(newlines(b@, pos as int, pos + 1) == newlines(b@, pos as int, pos as int) + if b@[pos as int] == 10u8 { 1nat } else { 0nat });
        }
        s.advance(1);
        return Ok(None);
    }
    if ch == 35 {
        let t = comment_token(s, b, n);
        proof {
            assert(cwt_step(b@, file.spec_bytes(), end, pos as int, line) == cwt_step(b@, Seq::empty(), start, pos as int, line));
        }
        return Ok(t);
    }
    let tok = if ch == 123 {
        proof {
            lemma_ascii_next(b@, pos as int);
            crate::text::lemma_no_newlines(b@, pos as int, pos + 1);
        }
        s.advance(1);
        Token::Open(s.finish(start))
    } else if ch == 125 {
        proof {
            lemma_ascii_next(b@, pos as int);
            crate::text::lemma_no_newlines(b@, pos as int, pos + 1);
        }
        s.advance(1);
        Token::Close(s.finish(start))
    } else if ch == 61 {
        let equal = pos + 1 < n && b[pos + 1] == 61;
        proof {
            lemma_ascii_next(b@, pos as int);
            if equal {
                lemma_ascii_next(b@, pos + 1);
            }
            crate::text::lemma_no_newlines(b@, pos as int, pos + if equal { 2int } else { 1int });
        }
        s.advance(if equal { 2 } else { 1 });
        Token::Op(if equal { Operator::Equal } else { Operator::Assign }, s.finish(start))
    } else if ch == 34 {
        match s.quoted(file) {
            Ok(t) => Token::Scalar(Scalar { text: t, quoted: true, span: s.finish(start) }),
            Err(e) => {
                let mut e = e;
                e.span = e.span.through(end);
                return Err(e);
            },
        }
    } else {
        let w = scalar_end_at(b, pos);
        proof {
            lemma_scalar_end(b@, pos as int);
            if w < n {
                lemma_ascii_boundary(b@, w as int);
            }
            crate::text::lemma_no_newlines(b@, pos as int, w as int);
        }
        let t = substring(s.text, pos, w);
        s.advance(w - pos);
        Token::Scalar(Scalar { text: t, quoted: false, span: s.finish(start) })
    };
    Ok(Some(tok))
}

/// Tokenizes CWT source; a lexical error ends the tokens, which are kept.
fn tokenize(text: &str, file: &str, end: Span) -> (r: (Vec<Token>, Option<SyntaxError>))
    ensures
        toks_view(r.0@) == cwt_tokens(text.spec_bytes(), file.spec_bytes(), end).0,
        opt_error(r.1) == cwt_tokens(text.spec_bytes(), file.spec_bytes(), end).1,
{
    let b = text.as_bytes();
    let n = byte_len(text);
    let ghost f = file.spec_bytes();
    proof {
        lemma_newlines_bound(b@, 0, n as int);
        encode_utf8_valid_utf8(text@);
    }
    let mut s = Scanner::new(text, 0, 1);
    let bom = n >= 3 && b[0] == 0xEF && b[1] == 0xBB && b[2] == 0xBF;
    if bom {
        proof {
            crate::text::lemma_bom_boundary(b@);
            crate::text::lemma_no_newlines(b@, 0, 3);
        }
        s.advance(3);
    }
    let mut tokens: Vec<Token> = Vec::new();
    proof {
        assert(toks_view(tokens@) =~= Seq::<TokView>::empty());
        assert(crate::script::starts_with_bom(b@) == bom);
        assert(Seq::<TokView>::empty() + cwt_lex_from(b@, f, end, s.offset as int, s.line as int).0
            =~= cwt_lex_from(b@, f, end, s.offset as int, s.line as int).0);
    }
    while s.offset < n
        invariant
            s.wf(),
            s.text == text,
            s.base == 0,
            b@ == text.spec_bytes(),
            n == b@.len(),
            f == file.spec_bytes(),
            valid_utf8(b@),
            cwt_tokens(b@, f, end) == join(toks_view(tokens@), cwt_lex_from(b@, f, end, s.offset as int, s.line as int)),
        decreases n - s.offset,
    {
        let ghost pos = s.offset as int;
        let ghost line = s.line as int;
        proof {
            lemma_cwt_step(b@, f, end, pos, line);
        }
        match next_token(&mut s, b, n, file, end) {
            Ok(None) => {},
            Ok(Some(tok)) => {
                proof {
                    lemma_join_push(toks_view(tokens@), tok@, cwt_lex_from(b@, f, end, s.offset as int, s.line as int));
                    lemma_toks_push(tokens@, tok);
                }
                tokens.push(tok);
            },
            Err(e) => {
                proof {
                    assert(toks_view(tokens@) + Seq::<TokView>::empty() =~= toks_view(tokens@));
                }
                return (tokens, Some(e));
            },
        }
    }
    proof {
        assert(toks_view(tokens@) + Seq::<TokView>::empty() =~= toks_view(tokens@));
    }
    (tokens, None)
}

// ---------------------------------------------------------------- statements

/// An open body during parsing: the root, or a block whose closing brace has not come yet.
pub struct FrameView {
    pub nodes: Seq<NodeView>,
    pub annotations: Seq<AnnotationView>,
    pub key: Option<ScalarView>,
    pub op: Option<Operator>,
    pub open: Span,
    pub start: Span,
    pub attached: Seq<AnnotationView>,
}

pub open spec fn root_frame() -> FrameView {
    FrameView {
        nodes: Seq::empty(),
        annotations: Seq::empty(),
        key: None,
        op: None,
        open: crate::source::zero_span(),
        start: crate::source::zero_span(),
        attached: Seq::empty(),
    }
}

pub open spec fn syntax_diag(span: Span, message: Seq<u8>) -> DiagnosticView {
    DiagnosticView { kind: "syntax".spec_bytes(), span, message }
}

/// Unattached annotations, reported in order.
pub open spec fn orphans(a: Seq<AnnotationView>) -> Seq<DiagnosticView> {
    a.map_values(|x: AnnotationView| DiagnosticView { kind: "orphan-annotation".spec_bytes(), span: x.span, message: x.text })
}

pub open spec fn nesting_diag(span: Span) -> DiagnosticView {
    DiagnosticView {
        kind: "nesting-limit".spec_bytes(),
        span,
        message: "Nesting exceeds supported limit; remaining input unparsed".spec_bytes(),
    }
}

pub open spec fn with_top(frames: Seq<FrameView>, f: FrameView) -> Seq<FrameView> {
    frames.update(frames.len() - 1, f)
}

/// The parser's progress after one statement or token.
pub enum CwtParse {
    /// Parsing goes on with these frames, diagnostics, and remaining tokens.
    Go(Seq<FrameView>, Seq<DiagnosticView>, Seq<TokView>),
    /// The nesting limit was reached; the remaining input is not parsed.
    Halt(Seq<FrameView>, Seq<DiagnosticView>),
}

/// A recognized statement: its key and operator (absent for a bare value), its value token, and what follows.
pub open spec fn statement(frames: Seq<FrameView>, diags: Seq<DiagnosticView>, key: Option<ScalarView>, op: Option<Operator>, value: TokView, rest: Seq<TokView>, start: Span, end: Span) -> CwtParse {
    let top = frames.last();
    let cleared = with_top(frames, FrameView { annotations: Seq::empty(), ..top });
    match value {
        TokView::Scalar(v) => CwtParse::Go(
            with_top(frames, FrameView {
                nodes: top.nodes.push(NodeView {
                    key,
                    op,
                    value: ValueView::Scalar(v),
                    annotations: top.annotations,
                    span: through(start, v.span),
                }),
                annotations: Seq::empty(),
                ..top
            }),
            diags,
            rest,
        ),
        TokView::Open(open) => if frames.len() > MAX_NESTING_DEPTH {
            CwtParse::Halt(cleared, diags.push(nesting_diag(through(start, end))))
        } else {
            CwtParse::Go(
                cleared.push(FrameView { nodes: Seq::empty(), annotations: Seq::empty(), key, op, open, start, attached: top.annotations }),
                diags,
                rest,
            )
        },
        _ => CwtParse::Go(frames, diags, rest),
    }
}

/// The parser's reaction to the next token.
pub open spec fn parse_step(frames: Seq<FrameView>, diags: Seq<DiagnosticView>, toks: Seq<TokView>, end: Span) -> CwtParse {
    let top = frames.last();
    let t = toks[0];
    let rest = toks.drop_first();
    match t {
        TokView::Annot(a) => CwtParse::Go(with_top(frames, FrameView { annotations: top.annotations.push(a), ..top }), diags, rest),
        TokView::Close(c) => {
            let d = diags + orphans(top.annotations);
            if frames.len() == 1 {
                CwtParse::Go(
                    with_top(frames, FrameView { annotations: Seq::empty(), ..top }),
                    d.push(syntax_diag(c, "Unmatched closing brace".spec_bytes())),
                    rest,
                )
            } else {
                let parent = frames[frames.len() - 2];
                let node = NodeView {
                    key: top.key,
                    op: top.op,
                    value: ValueView::Block { nodes: top.nodes, span: through(top.open, c) },
                    annotations: top.attached,
                    span: through(top.start, c),
                };
                CwtParse::Go(with_top(frames.drop_last(), FrameView { nodes: parent.nodes.push(node), ..parent }), d, rest)
            }
        },
        TokView::Op(_, sp) => CwtParse::Go(frames, diags.push(syntax_diag(sp, "Operator has no key".spec_bytes())), rest),
        _ => {
            let start = tok_span(t);
            if t is Scalar && rest.len() > 0 && rest[0] is Op {
                let after = rest.drop_first();
                if after.len() > 0 && (after[0] is Scalar || after[0] is Open) {
                    statement(frames, diags, Some(t->Scalar_0), Some(rest[0]->Op_0), after[0], after.drop_first(), start, end)
                } else {
                    CwtParse::Go(
                        with_top(frames, FrameView { annotations: Seq::empty(), ..top }),
                        diags.push(syntax_diag(start, "Missing assignment value".spec_bytes())) + orphans(top.annotations),
                        after,
                    )
                }
            } else {
                statement(frames, diags, None, None, t, rest, start, end)
            }
        },
    }
}

/// Parses all tokens, or up to the nesting limit.
pub open spec fn parse_run(frames: Seq<FrameView>, diags: Seq<DiagnosticView>, toks: Seq<TokView>, end: Span) -> (Seq<FrameView>, Seq<DiagnosticView>)
    decreases toks.len(),
{
    if toks.len() == 0 || frames.len() == 0 {
        (frames, diags)
    } else {
        match parse_step(frames, diags, toks, end) {
            CwtParse::Go(f, d, r) => if r.len() < toks.len() {
                parse_run(f, d, r, end)
            } else {
                (f, d)
            },
            CwtParse::Halt(f, d) => (f, d),
        }
    }
}

/// Closes the frames left open at the end: unclosed blocks are reported, and the root's nodes returned.
pub open spec fn finish_run(frames: Seq<FrameView>, diags: Seq<DiagnosticView>, end: Span) -> (Seq<NodeView>, Seq<DiagnosticView>)
    decreases frames.len(),
{
    if frames.len() == 0 {
        (Seq::empty(), diags)
    } else if frames.len() == 1 {
        (frames[0].nodes, diags + orphans(frames[0].annotations))
    } else {
        let child = frames.last();
        finish_run(
            frames.drop_last(),
            (diags + orphans(child.annotations)).push(
                syntax_diag(through(child.start, end), "Unclosed block; contents remain unparsed".spec_bytes()),
            ) + orphans(child.attached),
            end,
        )
    }
}

/// Byte-wise lexicographic order, as `String` compares.
pub open spec fn bytes_lt(a: Seq<u8>, b: Seq<u8>) -> bool
    decreases a.len(),
{
    if b.len() == 0 {
        false
    } else if a.len() == 0 {
        true
    } else if a[0] != b[0] {
        a[0] < b[0]
    } else {
        bytes_lt(a.drop_first(), b.drop_first())
    }
}

/// Diagnostics are ordered by start offset, then by kind.
pub open spec fn diag_lt(a: DiagnosticView, b: DiagnosticView) -> bool {
    a.span.start < b.span.start || (a.span.start == b.span.start && bytes_lt(a.kind, b.kind))
}

/// Where `x` goes in `t`: after every element that does not order after it.
pub open spec fn insert_at(t: Seq<DiagnosticView>, x: DiagnosticView) -> int
    decreases t.len(),
{
    if t.len() == 0 || !diag_lt(x, t.last()) {
        t.len() as int
    } else {
        insert_at(t.drop_last(), x)
    }
}

/// The stable ordering of diagnostics by start offset, then kind.
pub open spec fn sort_diags(s: Seq<DiagnosticView>) -> Seq<DiagnosticView>
    decreases s.len(),
{
    if s.len() == 0 {
        s
    } else {
        let t = sort_diags(s.drop_last());
        t.insert(insert_at(t, s.last()), s.last())
    }
}

pub open spec fn count_lines(b: Seq<u8>) -> int {
    newlines(b, 0, b.len() as int) + 1int
}

pub open spec fn end_of(b: Seq<u8>) -> Span {
    Span { start: b.len() as usize, end: b.len() as usize, line: count_lines(b) as usize, end_line: count_lines(b) as usize }
}

/// The CWT reading of `src`: partial nodes and every diagnostic, ordered by location.
pub open spec fn cwt_parse(src: Seq<u8>, file: Seq<u8>) -> DocumentView {
    let end = end_of(src);
    let (toks, err) = cwt_tokens(src, file, end);
    let d0 = match err {
        Some(e) => seq![syntax_diag(e.span, e.message)],
        None => Seq::empty(),
    };
    let (frames, d1) = parse_run(seq![root_frame()], d0, toks, end);
    let (nodes, d2) = finish_run(frames, d1, end);
    DocumentView { file, nodes, diagnostics: sort_diags(d2) }
}

struct Frame {
    nodes: Vec<Node>,
    annotations: Vec<Annotation>,
    key: Option<Scalar>,
    op: Option<Operator>,
    open: Span,
    start: Span,
    attached: Vec<Annotation>,
}

spec fn frame_view(f: Frame) -> FrameView {
    FrameView {
        nodes: nodes_view(f.nodes@),
        annotations: annotations_view(f.annotations@),
        key: opt_scalar(f.key),
        op: f.op,
        open: f.open,
        start: f.start,
        attached: annotations_view(f.attached@),
    }
}

spec fn frames_view(s: Seq<Frame>) -> Seq<FrameView> {
    s.map_values(|f: Frame| frame_view(f))
}

proof fn lemma_frames_push(s: Seq<Frame>, f: Frame)
    ensures
        frames_view(s.push(f)) == frames_view(s).push(frame_view(f)),
        frames_view(s.push(f)).len() == s.len() + 1,
{
    assert(frames_view(s.push(f)) =~= frames_view(s).push(frame_view(f)));
}

proof fn lemma_frames_pop(s: Seq<Frame>)
    requires
        s.len() > 0,
    ensures
        frames_view(s.drop_last()) == frames_view(s).drop_last(),
        frames_view(s).last() == frame_view(s.last()),
        frames_view(s).len() == s.len(),
{
    assert(frames_view(s.drop_last()) =~= frames_view(s).drop_last());
}

proof fn lemma_annotations_push(s: Seq<Annotation>, a: Annotation)
    ensures
        annotations_view(s.push(a)) == annotations_view(s).push(a@),
{
    assert(annotations_view(s.push(a)) =~= annotations_view(s).push(a@));
}

proof fn lemma_diagnostics_push(s: Seq<Diagnostic>, d: Diagnostic)
    ensures
        diagnostics_view(s.push(d)) == diagnostics_view(s).push(d@),
{
    assert(diagnostics_view(s.push(d)) =~= diagnostics_view(s).push(d@));
}

fn owned(s: &str) -> (r: String)
    ensures
        bytes(r) == s.spec_bytes(),
{
    s.to_owned()
}

fn syntax_diagnostic(span: Span, message: &str) -> (r: Diagnostic)
    ensures
        r@ == syntax_diag(span, message.spec_bytes()),
{
    Diagnostic { kind: owned("syntax"), span, message: owned(message) }
}

/// Reports every annotation of `annotations` as unattached, in order, and empties it.
fn diagnose_orphans(annotations: &mut Vec<Annotation>, diagnostics: &mut Vec<Diagnostic>)
    ensures
        final(annotations)@.len() == 0,
        diagnostics_view(final(diagnostics)@) == diagnostics_view(old(diagnostics)@) + orphans(annotations_view(old(annotations)@)),
{
    let mut taken: Vec<Annotation> = Vec::new();
    std::mem::swap(&mut taken, annotations);
    let ghost all = annotations_view(taken@);
    let ghost d0 = diagnostics_view(diagnostics@);
    let mut cursor = Cursor::new(taken);
    let ghost n = all.len();
    proof {
        assert(orphans(all).subrange(0, 0) =~= Seq::<DiagnosticView>::empty());
        assert(d0 + Seq::<DiagnosticView>::empty() =~= d0);
    }
    while cursor.tokens.len() > 0
        invariant
            n == all.len(),
            cursor.rest().len() <= n,
            annotations_view(cursor.rest()) == all.subrange(n - cursor.rest().len(), n as int),
            diagnostics_view(diagnostics@) == d0 + orphans(all).subrange(0, n - cursor.rest().len()),
            annotations@.len() == 0,
        decreases cursor.tokens.len(),
    {
        let ghost before = cursor.rest();
        let a = cursor.take().unwrap();
        let ghost k = n - before.len();
        proof {
            assert(annotations_view(before)[0] == all[k]);
            assert(cursor.rest() == before.drop_first());
            assert forall|j: int| 0 <= j < cursor.rest().len() implies annotations_view(cursor.rest())[j] == all.subrange(k + 1, n as int)[j] by {
                assert(annotations_view(cursor.rest())[j] == before[j + 1]@);
                assert(annotations_view(before)[j + 1] == all.subrange(k, n as int)[j + 1]);
            }
            assert(annotations_view(cursor.rest()) =~= all.subrange(k + 1, n as int));
        }
        let ghost av = a@;
        let d = Diagnostic { kind: owned("orphan-annotation"), span: a.span, message: a.text };
        proof {
            lemma_diagnostics_push(diagnostics@, d);
        }
        diagnostics.push(d);
        proof {
            assert(orphans(all)[k] == d@);
            assert(orphans(all).subrange(0, k + 1) =~= orphans(all).subrange(0, k).push(d@));
        }
    }
    proof {
        assert(orphans(all).subrange(0, n as int) =~= orphans(all));
    }
}

impl Token {
    fn span(&self) -> (r: Span)
        ensures
            r == tok_span(self@),
    {
        match self {
            Token::Scalar(s) => s.span,
            Token::Op(_, s) => *s,
            Token::Open(s) => *s,
            Token::Close(s) => *s,
            Token::Annotation(a) => a.span,
        }
    }
}

impl Frame {
    fn root() -> (f: Self)
        ensures
            frame_view(f) == root_frame(),
    {
        let f = Frame {
            nodes: Vec::new(),
            annotations: Vec::new(),
            key: None,
            op: None,
            open: Span::default(),
            start: Span::default(),
            attached: Vec::new(),
        };
        proof {
            lemma_nodes_view(f.nodes@);
            assert(nodes_view(f.nodes@) =~= Seq::<NodeView>::empty());
            assert(annotations_view(f.annotations@) =~= Seq::<AnnotationView>::empty());
        }
        f
    }
}

/// Adds a recognized statement to the innermost body; returns whether the nesting limit stopped parsing.
#[verifier::rlimit(40)]
fn add_statement(
    frames: &mut Vec<Frame>,
    diagnostics: &mut Vec<Diagnostic>,
    key: Option<Scalar>,
    op: Option<Operator>,
    value: Token,
    start: Span,
    end: Span,
    rest: Ghost<Seq<TokView>>,
) -> (halt: bool)
    requires
        old(frames)@.len() >= 1,
    ensures
        match statement(frames_view(old(frames)@), diagnostics_view(old(diagnostics)@), opt_scalar(key), op, value@, rest@, start, end) {
            CwtParse::Go(f, d, r) => !halt && frames_view(final(frames)@) == f && diagnostics_view(final(diagnostics)@) == d && r == rest@,
            CwtParse::Halt(f, d) => halt && frames_view(final(frames)@) == f && diagnostics_view(final(diagnostics)@) == d,
        },
        final(frames)@.len() >= 1,
{
    let ghost fv = frames_view(frames@);
    proof {
        lemma_frames_pop(frames@);
    }
    let mut top = frames.pop().unwrap();
    let ghost tv = frame_view(top);
    let mut attached: Vec<Annotation> = Vec::new();
    std::mem::swap(&mut attached, &mut top.annotations);
    proof {
        assert(annotations_view(top.annotations@) =~= Seq::<AnnotationView>::empty());
    }
    match value {
        Token::Scalar(v) => {
            let vspan = v.span;
            let node = Node { key, op, value: Value::Scalar(v), annotations: attached, span: start.through(vspan) };
            proof {
                lemma_nodes_view_push(top.nodes@, node);
            }
            top.nodes.push(node);
            proof {
                lemma_frames_push(frames@, top);
                assert(frames_view(frames@.push(top)) =~= with_top(fv, FrameView {
                    nodes: tv.nodes.push(node_view(node)),
                    annotations: Seq::empty(),
                    ..tv
                }));
            }
            frames.push(top);
            false
        },
        Token::Open(open) => {
            if frames.len() >= MAX_NESTING_DEPTH {
                let d = Diagnostic {
                    kind: owned("nesting-limit"),
                    span: start.through(end),
                    message: owned("Nesting exceeds supported limit; remaining input unparsed"),
                };
                proof {
                    lemma_diagnostics_push(diagnostics@, d);
                    lemma_frames_push(frames@, top);
                    assert(frames_view(frames@.push(top)) =~= with_top(fv, FrameView { annotations: Seq::empty(), ..tv }));
                }
                diagnostics.push(d);
                frames.push(top);
                true
            } else {
                proof {
                    lemma_frames_push(frames@, top);
                    assert(frames_view(frames@.push(top)) =~= with_top(fv, FrameView { annotations: Seq::empty(), ..tv }));
                }
                frames.push(top);
                let child = Frame { nodes: Vec::new(), annotations: Vec::new(), key, op, open, start, attached };
                proof {
                    lemma_frames_push(frames@, child);
                    lemma_nodes_view(child.nodes@);
                    assert(nodes_view(child.nodes@) =~= Seq::<NodeView>::empty());
                    assert(annotations_view(child.annotations@) =~= Seq::<AnnotationView>::empty());
                }
                frames.push(child);
                false
            }
        },
        _ => {
            top.annotations = attached;
            proof {
                lemma_frames_push(frames@, top);
                assert(frames_view(frames@.push(top)) =~= fv);
            }
            frames.push(top);
            false
        },
    }
}

spec fn rest_view(c: Cursor<Token>) -> Seq<TokView> {
    toks_view(c.rest())
}

proof fn lemma_rest_take(before: Seq<Token>, after: Seq<Token>)
    requires
        before.len() > 0,
        after == before.drop_first(),
    ensures
        toks_view(after) == toks_view(before).drop_first(),
        toks_view(before)[0] == before[0]@,
{
    assert(toks_view(after) =~= toks_view(before).drop_first());
}

/// Handles one token taken from the cursor; returns whether the nesting limit stopped parsing.
#[verifier::rlimit(60)]
#[verifier::spinoff_prover]
fn parse_token(
    frames: &mut Vec<Frame>,
    cursor: &mut Cursor<Token>,
    token: Token,
    end: Span,
    diagnostics: &mut Vec<Diagnostic>,
) -> (halt: bool)
    requires
        old(frames)@.len() >= 1,
    ensures
        final(frames)@.len() >= 1,
        match parse_step(frames_view(old(frames)@), diagnostics_view(old(diagnostics)@), seq![token@] + rest_view(*old(cursor)), end) {
            CwtParse::Go(f, d, r) => !halt && frames_view(final(frames)@) == f && diagnostics_view(final(diagnostics)@) == d
                && rest_view(*final(cursor)) == r,
            CwtParse::Halt(f, d) => halt && frames_view(final(frames)@) == f && diagnostics_view(final(diagnostics)@) == d,
        },
{
    let ghost fv = frames_view(frames@);
    let ghost toks = seq![token@] + rest_view(*cursor);
    let start = token.span();
    proof {
        assert(toks[0] == token@);
        assert(toks.drop_first() =~= rest_view(*cursor));
        lemma_frames_pop(frames@);
    }
    match token {
        Token::Annotation(a) => {
            let mut top = frames.pop().unwrap();
            proof {
                lemma_annotations_push(top.annotations@, a);
            }
            top.annotations.push(a);
            proof {
                lemma_frames_push(frames@, top);
                assert(frames_view(frames@.push(top)) =~= with_top(fv, frame_view(top)));
            }
            frames.push(top);
            false
        },
        Token::Close(close) => {
            let mut top = frames.pop().unwrap();
            diagnose_orphans(&mut top.annotations, diagnostics);
            proof {
                assert(annotations_view(top.annotations@) =~= Seq::<AnnotationView>::empty());
            }
            if frames.len() == 0 {
                let d = syntax_diagnostic(close, "Unmatched closing brace");
                proof {
                    lemma_diagnostics_push(diagnostics@, d);
                    lemma_frames_push(frames@, top);
                    assert(frames_view(frames@.push(top)) =~= with_top(fv, frame_view(top)));
                }
                diagnostics.push(d);
                frames.push(top);
            } else {
                proof {
                    lemma_frames_pop(frames@);
                }
                let mut parent = frames.pop().unwrap();
                let node = Node {
                    key: top.key,
                    op: top.op,
                    value: Value::Block { nodes: top.nodes, span: top.open.through(close) },
                    annotations: top.attached,
                    span: top.start.through(close),
                };
                proof {
                    lemma_nodes_view_push(parent.nodes@, node);
                }
                parent.nodes.push(node);
                proof {
                    lemma_frames_push(frames@, parent);
                    assert(frames_view(frames@.push(parent)) =~= with_top(fv.drop_last(), frame_view(parent)));
                }
                frames.push(parent);
            }
            false
        },
        Token::Op(_, span) => {
            let d = syntax_diagnostic(span, "Operator has no key");
            proof {
                lemma_diagnostics_push(diagnostics@, d);
            }
            diagnostics.push(d);
            false
        },
        Token::Scalar(key) => {
            let is_op = match cursor.peek() {
                Some(Token::Op(_, _)) => true,
                _ => false,
            };
            if !is_op {
                return add_statement(frames, diagnostics, None, None, Token::Scalar(key), start, end, Ghost(rest_view(*cursor)));
            }
            let ghost c1 = cursor.rest();
            let op = match cursor.take() {
                Some(Token::Op(o, _)) => o,
                _ => Operator::Assign,
            };
            proof {
                lemma_rest_take(c1, cursor.rest());
            }
            let ok = match cursor.peek() {
                Some(Token::Scalar(_)) => true,
                Some(Token::Open(_)) => true,
                _ => false,
            };
            if ok {
                let ghost c2 = cursor.rest();
                let value = cursor.take().unwrap();
                proof {
                    lemma_rest_take(c2, cursor.rest());
                }
                add_statement(frames, diagnostics, Some(key), Some(op), value, start, end, Ghost(rest_view(*cursor)))
            } else {
                let d = syntax_diagnostic(start, "Missing assignment value");
                proof {
                    lemma_diagnostics_push(diagnostics@, d);
                }
                diagnostics.push(d);
                let mut top = frames.pop().unwrap();
                diagnose_orphans(&mut top.annotations, diagnostics);
                proof {
                    assert(annotations_view(top.annotations@) =~= Seq::<AnnotationView>::empty());
                    lemma_frames_push(frames@, top);
                    assert(frames_view(frames@.push(top)) =~= with_top(fv, frame_view(top)));
                }
                frames.push(top);
                false
            }
        },
        Token::Open(open) => {
            add_statement(frames, diagnostics, None, None, Token::Open(open), start, end, Ghost(rest_view(*cursor)))
        },
    }
}

proof fn lemma_parse_step_len(frames: Seq<FrameView>, diags: Seq<DiagnosticView>, toks: Seq<TokView>, end: Span)
    requires
        toks.len() > 0,
    ensures
        parse_step(frames, diags, toks, end) matches CwtParse::Go(_, _, r) ==> r.len() < toks.len(),
{
}

fn parse_tokens(tokens: Vec<Token>, end: Span, diagnostics: &mut Vec<Diagnostic>) -> (r: Vec<Node>)
    ensures
        ({
            let (f, d) = parse_run(seq![root_frame()], diagnostics_view(old(diagnostics)@), toks_view(tokens@), end);
            let (nodes, d2) = finish_run(f, d, end);
            nodes_view(r@) == nodes && diagnostics_view(final(diagnostics)@) == d2
        }),
{
    let ghost target = parse_run(seq![root_frame()], diagnostics_view(diagnostics@), toks_view(tokens@), end);
    let mut cursor = Cursor::new(tokens);
    let mut frames: Vec<Frame> = Vec::new();
    let r0 = Frame::root();
    proof {
        lemma_frames_push(frames@, r0);
        assert(frames_view(frames@.push(r0)) =~= seq![root_frame()]);
    }
    frames.push(r0);
    loop
        invariant_except_break
            parse_run(frames_view(frames@), diagnostics_view(diagnostics@), rest_view(cursor), end) == target,
        invariant
            frames@.len() >= 1,
        ensures
            frames@.len() >= 1,
            (frames_view(frames@), diagnostics_view(diagnostics@)) == target,
        decreases cursor.tokens@.len(),
    {
        let ghost before = cursor.rest();
        let token = match cursor.take() {
            Some(t) => t,
            None => {
                proof {
                    assert(rest_view(cursor) =~= Seq::<TokView>::empty());
                }
                break;
            },
        };
        proof {
            lemma_rest_take(before, cursor.rest());
            assert(toks_view(before) =~= seq![token@] + rest_view(cursor));
            lemma_frames_pop(frames@);
        }
        let ghost fv = frames_view(frames@);
        let ghost dv = diagnostics_view(diagnostics@);
        let ghost rv = rest_view(cursor);
        let ghost n0 = cursor.tokens@.len();
        let halt = parse_token(&mut frames, &mut cursor, token, end, diagnostics);
        proof {
            let toks = seq![token@] + rv;
            lemma_parse_step_len(fv, dv, toks, end);
        }
        if halt {
            break;
        }
    }
    finish_frames(frames, end, diagnostics)
}

fn finish_frames(frames: Vec<Frame>, end: Span, diagnostics: &mut Vec<Diagnostic>) -> (r: Vec<Node>)
    requires
        frames@.len() >= 1,
    ensures
        ({
            let (nodes, d) = finish_run(frames_view(frames@), diagnostics_view(old(diagnostics)@), end);
            nodes_view(r@) == nodes && diagnostics_view(final(diagnostics)@) == d
        }),
{
    let mut frames = frames;
    let ghost target = finish_run(frames_view(frames@), diagnostics_view(diagnostics@), end);
    while frames.len() > 1
        invariant
            frames@.len() >= 1,
            finish_run(frames_view(frames@), diagnostics_view(diagnostics@), end) == target,
        decreases frames@.len(),
    {
        proof {
            lemma_frames_pop(frames@);
        }
        let mut child = frames.pop().unwrap();
        diagnose_orphans(&mut child.annotations, diagnostics);
        let d = syntax_diagnostic(child.start.through(end), "Unclosed block; contents remain unparsed");
        proof {
            lemma_diagnostics_push(diagnostics@, d);
        }
        diagnostics.push(d);
        diagnose_orphans(&mut child.attached, diagnostics);
    }
    proof {
        lemma_frames_pop(frames@);
        assert(frames_view(frames@)[0] == frame_view(frames@[0]));
    }
    let mut root = frames.pop().unwrap();
    diagnose_orphans(&mut root.annotations, diagnostics);
    root.nodes
}

fn bytes_less(a: &[u8], b: &[u8]) -> (r: bool)
    ensures
        r == bytes_lt(a@, b@),
{
    let mut i: usize = 0;
    loop
        invariant
            i <= a@.len(),
            i <= b@.len(),
            bytes_lt(a@, b@) == bytes_lt(a@.skip(i as int), b@.skip(i as int)),
        decreases a@.len() - i,
    {
        if i == b.len() {
            return false;
        }
        if i == a.len() {
            return true;
        }
        if a[i] != b[i] {
            return a[i] < b[i];
        }
        proof {
            assert(a@.skip(i as int).drop_first() =~= a@.skip(i + 1));
            assert(b@.skip(i as int).drop_first() =~= b@.skip(i + 1));
        }
        i += 1;
    }
}

fn diag_less(a: &Diagnostic, b: &Diagnostic) -> (r: bool)
    ensures
        r == diag_lt(a@, b@),
{
    if a.span.start != b.span.start {
        return a.span.start < b.span.start;
    }
    proof {
        encode_utf8_valid_utf8(a.kind@);
    }
    bytes_less(a.kind.as_str().as_bytes(), b.kind.as_str().as_bytes())
}

/// Sorts diagnostics by start offset, then kind, keeping the order of equal keys.
fn sort_diagnostics(diagnostics: Vec<Diagnostic>) -> (r: Vec<Diagnostic>)
    ensures
        diagnostics_view(r@) == sort_diags(diagnostics_view(diagnostics@)),
{
    let ghost all = diagnostics_view(diagnostics@);
    let ghost n = all.len();
    let mut cursor = Cursor::new(diagnostics);
    let mut out: Vec<Diagnostic> = Vec::new();
    proof {
        assert(all.take(0) =~= Seq::<DiagnosticView>::empty());
        assert(diagnostics_view(out@) =~= Seq::<DiagnosticView>::empty());
        assert(diagnostics_view(cursor.rest()) =~= all.skip(0));
    }
    while cursor.tokens.len() > 0
        invariant
            n == all.len(),
            cursor.rest().len() <= n,
            diagnostics_view(cursor.rest()) == all.skip(n - cursor.rest().len()),
            diagnostics_view(out@) == sort_diags(all.take(n - cursor.rest().len())),
        decreases cursor.tokens.len(),
    {
        let ghost before = cursor.rest();
        let ghost k = n - before.len();
        let x = cursor.take().unwrap();
        proof {
            assert(diagnostics_view(before)[0] == x@);
            assert(all[k] == x@);
            assert forall|j: int| 0 <= j < cursor.rest().len() implies diagnostics_view(cursor.rest())[j] == all.skip(k + 1)[j] by {
                assert(cursor.rest()[j] == before[j + 1]);
                assert(diagnostics_view(before)[j + 1] == all.skip(k)[j + 1]);
            }
            assert(diagnostics_view(cursor.rest()) =~= all.skip(k + 1));
        }
        let ghost t = diagnostics_view(out@);
        let mut p = out.len();
        while p > 0 && diag_less(&x, &out[p - 1])
            invariant
                p <= out@.len(),
                t == diagnostics_view(out@),
                insert_at(t, x@) == insert_at(t.take(p as int), x@),
            decreases p,
        {
            proof {
                assert(t.take(p as int).drop_last() =~= t.take(p - 1));
                assert(t.take(p as int).last() == out@[p - 1]@);
            }
            p -= 1;
        }
        proof {
            if p == 0 {
                assert(t.take(0).len() == 0);
            } else {
                assert(t.take(p as int).last() == out@[p - 1]@);
            }
            assert(insert_at(t, x@) == p);
        }
        out.insert(p, x);
        proof {
            assert(diagnostics_view(out@) =~= t.insert(p as int, x@));
            let s1 = all.take(k + 1);
            assert(s1.drop_last() =~= all.take(k));
            assert(s1.last() == x@);
        }
    }
    proof {
        assert(all.take(n as int) =~= all);
    }
    out
}

/// Parses CWT, retaining recoverable diagnostics and partial nodes instead of hiding unparsed input.
pub fn parse(source: &str, file: &str) -> (r: Document)
    ensures
        r@ == cwt_parse(source.spec_bytes(), file.spec_bytes()),
{
    let b = source.as_bytes();
    let n = byte_len(source);
    let nl = crate::text::count_newlines(b);
    proof {
        lemma_newlines_bound(b@, 0, n as int);
    }
    let line = nl + 1;
    let end = Span { start: n, end: n, line, end_line: line };
    let (tokens, err) = tokenize(source, file, end);
    let mut diagnostics: Vec<Diagnostic> = Vec::new();
    if let Some(e) = err {
        let d = Diagnostic { kind: owned("syntax"), span: e.span, message: e.message };
        diagnostics.push(d);
        proof {
            assert(diagnostics_view(diagnostics@) =~= seq![d@]);
        }
    } else {
        proof {
            assert(diagnostics_view(diagnostics@) =~= Seq::<DiagnosticView>::empty());
        }
    }
    let nodes = parse_tokens(tokens, end, &mut diagnostics);
    let diagnostics = sort_diagnostics(diagnostics);
    Document { file: owned(file), nodes, diagnostics }
}

// ---------------------------------------------------------------- ordering of diagnostics

proof fn lemma_bytes_irreflexive(a: Seq<u8>)
    ensures
        !bytes_lt(a, a),
    decreases a.len(),
{
    if a.len() > 0 {
        lemma_bytes_irreflexive(a.drop_first());
    }
}

proof fn lemma_bytes_transitive(a: Seq<u8>, b: Seq<u8>, c: Seq<u8>)
    requires
        bytes_lt(a, b),
        bytes_lt(b, c),
    ensures
        bytes_lt(a, c),
    decreases a.len(),
{
    if a.len() > 0 && b.len() > 0 && c.len() > 0 && a[0] == b[0] && b[0] == c[0] {
        lemma_bytes_transitive(a.drop_first(), b.drop_first(), c.drop_first());
    }
}

proof fn lemma_bytes_total(a: Seq<u8>, b: Seq<u8>)
    ensures
        a == b || bytes_lt(a, b) || bytes_lt(b, a),
    decreases a.len(),
{
    if a.len() > 0 && b.len() > 0 && a[0] == b[0] {
        lemma_bytes_total(a.drop_first(), b.drop_first());
        if a.drop_first() == b.drop_first() {
            assert(a =~= seq![a[0]] + a.drop_first());
            assert(b =~= seq![b[0]] + b.drop_first());
        }
    } else if a.len() == 0 && b.len() == 0 {
        assert(a =~= b);
    }
}

/// `x` not before `y` and `y` not before `z` means `x` is not before `z`.
proof fn lemma_diag_not_before(x: DiagnosticView, y: DiagnosticView, z: DiagnosticView)
    requires
        !diag_lt(x, y),
        !diag_lt(y, z),
    ensures
        !diag_lt(x, z),
{
    if diag_lt(x, z) && x.span.start == z.span.start {
        lemma_bytes_total(x.kind, y.kind);
        lemma_bytes_total(y.kind, z.kind);
        if bytes_lt(y.kind, x.kind) && bytes_lt(z.kind, y.kind) {
            lemma_bytes_transitive(z.kind, y.kind, x.kind);
            lemma_bytes_transitive(x.kind, z.kind, x.kind);
            lemma_bytes_irreflexive(x.kind);
        }
    }
}

proof fn lemma_diag_asymmetric(x: DiagnosticView, y: DiagnosticView)
    requires
        diag_lt(x, y),
    ensures
        !diag_lt(y, x),
{
    if x.span.start == y.span.start && bytes_lt(y.kind, x.kind) {
        lemma_bytes_transitive(x.kind, y.kind, x.kind);
        lemma_bytes_irreflexive(x.kind);
    }
}

/// No element orders before an earlier one.
pub open spec fn diags_sorted(s: Seq<DiagnosticView>) -> bool {
    forall|i: int, j: int| 0 <= i < j < s.len() ==> !diag_lt(#[trigger] s[j], #[trigger] s[i])
}

proof fn lemma_insert_at(t: Seq<DiagnosticView>, x: DiagnosticView)
    ensures
        0 <= insert_at(t, x) <= t.len(),
        forall|k: int| insert_at(t, x) <= k < t.len() ==> diag_lt(x, #[trigger] t[k]),
        insert_at(t, x) > 0 ==> !diag_lt(x, t[insert_at(t, x) - 1]),
    decreases t.len(),
{
    if t.len() > 0 && diag_lt(x, t.last()) {
        let u = t.drop_last();
        lemma_insert_at(u, x);
        assert forall|k: int| insert_at(t, x) <= k < t.len() implies diag_lt(x, #[trigger] t[k]) by {
            if k < t.len() - 1 {
                assert(t[k] == u[k]);
            }
        }
        if insert_at(t, x) > 0 {
            assert(t[insert_at(t, x) - 1] == u[insert_at(u, x) - 1]);
        }
    }
}

proof fn lemma_insert_sorted(t: Seq<DiagnosticView>, x: DiagnosticView)
    requires
        diags_sorted(t),
    ensures
        diags_sorted(t.insert(insert_at(t, x), x)),
{
    let p = insert_at(t, x);
    lemma_insert_at(t, x);
    let r = t.insert(p, x);
    assert forall|i: int, j: int| 0 <= i < j < r.len() implies !diag_lt(#[trigger] r[j], #[trigger] r[i]) by {
        if i < p && j < p {
            assert(r[i] == t[i] && r[j] == t[j]);
        } else if i < p && j == p {
            assert(!diag_lt(x, t[p - 1]));
            if i < p - 1 {
                assert(!diag_lt(t[p - 1], t[i]));
                lemma_diag_not_before(x, t[p - 1], t[i]);
            }
        } else if i < p {
            assert(r[i] == t[i] && r[j] == t[j - 1]);
        } else if i == p {
            assert(diag_lt(x, t[j - 1]));
            lemma_diag_asymmetric(x, t[j - 1]);
        } else {
            assert(r[i] == t[i - 1] && r[j] == t[j - 1]);
        }
    }
}

/// The diagnostics of a CWT document are ordered by start offset, then kind, and are exactly the
/// diagnostics found, each kept as often as it was found.
pub proof fn law_diagnostics_ordered(s: Seq<DiagnosticView>)
    ensures
        diags_sorted(sort_diags(s)),
        sort_diags(s).to_multiset() == s.to_multiset(),
    decreases s.len(),
{
    broadcast use vstd::seq_lib::to_multiset_insert, vstd::seq_lib::to_multiset_build;
    if s.len() > 0 {
        let t = sort_diags(s.drop_last());
        law_diagnostics_ordered(s.drop_last());
        lemma_insert_sorted(t, s.last());
        lemma_insert_at(t, s.last());
        assert(s.drop_last().push(s.last()) =~= s);
    }
}


// ---------------------------------------------------------------- where node spans lie

/// A node's span starts where its key starts (or, for a bare value, where the value starts), at
/// or before where its value starts, and ends where its value ends, at every depth.
pub open spec fn node_spans_ok(n: NodeView) -> bool
    decreases n,
{
    let v = value_span(n.value);
    let first = match n.key {
        Some(k) => k.span,
        None => v,
    };
    &&& n.span == through(first, v)
    &&& first.start <= v.start
    &&& forall|i: int| 0 <= i < n.annotations.len() ==> (#[trigger] n.annotations[i]).span.start < n.span.start
    &&& match n.value {
        ValueView::Block { nodes, .. } => nodes_spans_ok(nodes),
        _ => true,
    }
}

pub open spec fn nodes_spans_ok(s: Seq<NodeView>) -> bool
    decreases s,
{
    if s.len() == 0 {
        true
    } else {
        node_spans_ok(s[0]) && nodes_spans_ok(s.subrange(1, s.len() as int))
    }
}

proof fn lemma_spans_push(s: Seq<NodeView>, x: NodeView)
    requires
        nodes_spans_ok(s),
        node_spans_ok(x),
    ensures
        nodes_spans_ok(s.push(x)),
    decreases s.len(),
{
    let t = s.push(x);
    let tail = t.subrange(1, t.len() as int);
    if s.len() > 0 {
        let r = s.subrange(1, s.len() as int);
        lemma_spans_push(r, x);
        assert(tail =~= r.push(x));
        assert(t[0] == s[0]);
    } else {
        assert(tail =~= Seq::<NodeView>::empty());
        assert(t[0] == x);
    }
    assert(nodes_spans_ok(t) == (node_spans_ok(t[0]) && nodes_spans_ok(tail)));
}

/// An open block frame: its nodes keep their spans, and it starts at its key or its brace.
pub open spec fn frame_spans_ok(f: FrameView) -> bool {
    &&& nodes_spans_ok(f.nodes)
    &&& f.start == match f.key {
        Some(k) => k.span,
        None => f.open,
    }
    &&& f.start.start <= f.open.start
    &&& forall|i: int| 0 <= i < f.attached.len() ==> (#[trigger] f.attached[i]).span.start < f.start.start
}

/// Every annotation still waiting for its node starts before `x`.
pub open spec fn pending_before(frames: Seq<FrameView>, x: usize) -> bool {
    forall|k: int, i: int| 0 <= k < frames.len() && 0 <= i < frames[k].annotations.len()
        ==> (#[trigger] frames[k].annotations[i]).span.start < x
}

/// Tokens in the order of their starting offsets.
pub open spec fn toks_sorted(ts: Seq<TokView>) -> bool {
    forall|i: int, j: int| 0 <= i < j < ts.len() ==> tok_span(#[trigger] ts[i]).start < tok_span(#[trigger] ts[j]).start
}

proof fn lemma_sorted_skip(ts: Seq<TokView>, k: int)
    requires
        toks_sorted(ts),
        0 <= k <= ts.len(),
    ensures
        toks_sorted(ts.skip(k)),
{
    let r = ts.skip(k);
    assert forall|i: int, j: int| 0 <= i < j < r.len() implies tok_span(#[trigger] r[i]).start < tok_span(#[trigger] r[j]).start by {
        assert(r[i] == ts[i + k] && r[j] == ts[j + k]);
    }
}

/// The tokenizer reports tokens in the order of their starting offsets, each at or after where it began.
proof fn lemma_cwt_lex_sorted(b: Seq<u8>, file: Seq<u8>, end: Span, pos: int, line: int)
    requires
        0 <= pos,
        b.len() < usize::MAX,
    ensures
        toks_sorted(cwt_lex_from(b, file, end, pos, line).0),
        forall|j: int| 0 <= j < cwt_lex_from(b, file, end, pos, line).0.len()
            ==> pos <= tok_span(#[trigger] cwt_lex_from(b, file, end, pos, line).0[j]).start,
    decreases b.len() - pos,
{
    if pos < b.len() {
        lemma_cwt_step(b, file, end, pos, line);
        match cwt_step(b, file, end, pos, line) {
            CwtStep::Skip(p, l) => {
                lemma_cwt_lex_sorted(b, file, end, p, l);
            },
            CwtStep::Tok(t, p, l) => {
                lemma_cwt_lex_sorted(b, file, end, p, l);
                let ts = cwt_lex_from(b, file, end, p, l).0;
                let all = seq![t] + ts;
                assert(cwt_lex_from(b, file, end, pos, line).0 == all);
                assert(tok_span(t).start == pos);
                assert forall|j: int| 0 <= j < all.len() implies pos <= tok_span(#[trigger] all[j]).start by {
                    if j > 0 {
                        assert(all[j] == ts[j - 1]);
                    }
                }
                assert forall|i: int, j: int| 0 <= i < j < all.len() implies tok_span(#[trigger] all[i]).start < tok_span(#[trigger] all[j]).start by {
                    assert(all[j] == ts[j - 1]);
                    if i > 0 {
                        assert(all[i] == ts[i - 1]);
                    }
                }
            },
            CwtStep::Fail(_) => {},
        }
    }
}

pub open spec fn frames_spans_ok(frames: Seq<FrameView>) -> bool {
    forall|k: int| 0 <= k < frames.len() ==> frame_spans_ok(#[trigger] frames[k])
}

proof fn lemma_spans_with_top(frames: Seq<FrameView>, f: FrameView)
    requires
        frames_spans_ok(frames),
        frame_spans_ok(f),
        frames.len() > 0,
    ensures
        frames_spans_ok(with_top(frames, f)),
        forall|x: usize| pending_before(frames, x) && (forall|i: int| 0 <= i < f.annotations.len() ==> (#[trigger] f.annotations[i]).span.start < x)
            ==> #[trigger] pending_before(with_top(frames, f), x),
{
    let g = with_top(frames, f);
    assert forall|x: usize| pending_before(frames, x) && (forall|i: int| 0 <= i < f.annotations.len() ==> (#[trigger] f.annotations[i]).span.start < x)
        implies #[trigger] pending_before(g, x) by {
        assert forall|k: int, i: int| 0 <= k < g.len() && 0 <= i < g[k].annotations.len()
            implies (#[trigger] g[k].annotations[i]).span.start < x by {
            if k < frames.len() - 1 {
                assert(g[k] == frames[k]);
            }
        }
    }
    assert forall|k: int| 0 <= k < g.len() implies frame_spans_ok(#[trigger] g[k]) by {
        if k < frames.len() - 1 {
            assert(g[k] == frames[k]);
        }
    }
}

proof fn lemma_spans_statement(frames: Seq<FrameView>, diags: Seq<DiagnosticView>, key: Option<ScalarView>, op: Option<Operator>, value: TokView, rest: Seq<TokView>, start: Span, end: Span)
    requires
        frames_spans_ok(frames),
        frames.len() > 0,
        start == match key {
            Some(k) => k.span,
            None => tok_span(value),
        },
        start.start <= tok_span(value).start,
        pending_before(frames, start.start),
    ensures
        match statement(frames, diags, key, op, value, rest, start, end) {
            CwtParse::Go(f, _, _) => frames_spans_ok(f) && pending_before(f, start.start),
            CwtParse::Halt(f, _) => frames_spans_ok(f),
        },
{
    let top = frames.last();
    assert(frame_spans_ok(frames[frames.len() - 1]));
    let cleared = with_top(frames, FrameView { annotations: Seq::empty(), ..top });
    lemma_spans_with_top(frames, FrameView { annotations: Seq::empty(), ..top });
    match value {
        TokView::Scalar(v) => {
            let n = NodeView { key, op, value: ValueView::Scalar(v), annotations: top.annotations, span: through(start, v.span) };
            assert forall|i: int| 0 <= i < n.annotations.len() implies (#[trigger] n.annotations[i]).span.start < n.span.start by {
                assert(frames[frames.len() - 1].annotations[i] == top.annotations[i]);
            }
            assert(node_spans_ok(n));
            lemma_spans_push(top.nodes, n);
            lemma_spans_with_top(frames, FrameView { nodes: top.nodes.push(n), annotations: Seq::empty(), ..top });
        },
        TokView::Open(open) => {
            let nf = FrameView { nodes: Seq::empty(), annotations: Seq::empty(), key, op, open, start, attached: top.annotations };
            let g = cleared.push(nf);
            assert forall|i: int| 0 <= i < nf.attached.len() implies (#[trigger] nf.attached[i]).span.start < nf.start.start by {
                assert(frames[frames.len() - 1].annotations[i] == top.annotations[i]);
            }
            assert forall|k: int| 0 <= k < g.len() implies frame_spans_ok(#[trigger] g[k]) by {
                if k < cleared.len() {
                    assert(g[k] == cleared[k]);
                }
            }
            assert(pending_before(cleared, start.start));
            assert forall|k: int, i: int| 0 <= k < g.len() && 0 <= i < g[k].annotations.len()
                implies (#[trigger] g[k].annotations[i]).span.start < start.start by {
                assert(g[k] == cleared[k]);
            }
        },
        _ => {},
    }
}

proof fn lemma_spans_step(frames: Seq<FrameView>, diags: Seq<DiagnosticView>, toks: Seq<TokView>, end: Span)
    requires
        frames_spans_ok(frames),
        frames.len() > 0,
        toks.len() > 0,
        toks_sorted(toks),
        pending_before(frames, tok_span(toks[0]).start),
    ensures
        match parse_step(frames, diags, toks, end) {
            CwtParse::Go(f, _, r) => frames_spans_ok(f) && f.len() > 0 && toks_sorted(r)
                && (r.len() > 0 ==> pending_before(f, tok_span(r[0]).start)),
            CwtParse::Halt(f, _) => frames_spans_ok(f),
        },
{
    let top = frames.last();
    assert(frame_spans_ok(frames[frames.len() - 1]));
    let t = toks[0];
    let rest = toks.drop_first();
    lemma_sorted_skip(toks, 1);
    assert(rest =~= toks.skip(1));
    if toks.len() >= 2 {
        lemma_sorted_skip(toks, 2);
        assert(rest.drop_first() =~= toks.skip(2));
    }
    if toks.len() >= 3 {
        lemma_sorted_skip(toks, 3);
        assert(rest.drop_first().drop_first() =~= toks.skip(3));
    }
    let x0 = tok_span(t).start;
    assert forall|y: usize| x0 <= y implies #[trigger] pending_before(frames, y) by {}
    if rest.len() > 0 {
        assert(rest[0] == toks[1]);
        assert(x0 < tok_span(toks[1]).start);
    }
    if rest.len() > 1 {
        assert(rest[1] == toks[2]);
        assert(x0 < tok_span(toks[2]).start);
    }
    if rest.len() > 2 {
        assert(rest.drop_first().drop_first()[0] == toks[3]);
        assert(x0 < tok_span(toks[3]).start);
    }
    match t {
        TokView::Annot(a) => {
            let na = top.annotations.push(a);
            lemma_spans_with_top(frames, FrameView { annotations: na, ..top });
            if rest.len() > 0 {
                let y = tok_span(rest[0]).start;
                assert forall|i: int| 0 <= i < na.len() implies (#[trigger] na[i]).span.start < y by {
                    if i < top.annotations.len() {
                        assert(na[i] == frames[frames.len() - 1].annotations[i]);
                    }
                }
            }
        },
        TokView::Close(c) => {
            if frames.len() == 1 {
                lemma_spans_with_top(frames, FrameView { annotations: Seq::empty(), ..top });
            } else {
                let parent = frames[frames.len() - 2];
                assert(frame_spans_ok(parent));
                let node = NodeView {
                    key: top.key,
                    op: top.op,
                    value: ValueView::Block { nodes: top.nodes, span: through(top.open, c) },
                    annotations: top.attached,
                    span: through(top.start, c),
                };
                assert(frame_spans_ok(frames[frames.len() - 1]));
                assert forall|i: int| 0 <= i < node.annotations.len() implies (#[trigger] node.annotations[i]).span.start < node.span.start by {
                    assert(frames[frames.len() - 1].attached[i] == top.attached[i]);
                }
                assert(node_spans_ok(node));
                lemma_spans_push(parent.nodes, node);
                let rest_frames = frames.drop_last();
                assert forall|k: int| 0 <= k < rest_frames.len() implies frame_spans_ok(#[trigger] rest_frames[k]) by {
                    assert(rest_frames[k] == frames[k]);
                }
                assert(rest_frames.last() == parent);
                lemma_spans_with_top(rest_frames, FrameView { nodes: parent.nodes.push(node), ..parent });
                assert forall|y: usize| x0 <= y implies #[trigger] pending_before(rest_frames, y) by {
                    assert forall|k: int, i: int| 0 <= k < rest_frames.len() && 0 <= i < rest_frames[k].annotations.len()
                        implies (#[trigger] rest_frames[k].annotations[i]).span.start < y by {
                        assert(rest_frames[k] == frames[k]);
                    }
                }
                assert forall|i: int| 0 <= i < parent.annotations.len() implies (#[trigger] parent.annotations[i]).span.start < x0 by {
                    assert(frames[frames.len() - 2].annotations[i] == parent.annotations[i]);
                }
            }
        },
        TokView::Op(_, _) => {},
        _ => {
            let start = tok_span(t);
            if t is Scalar && rest.len() > 0 && rest[0] is Op {
                let after = rest.drop_first();
                if after.len() > 0 && (after[0] is Scalar || after[0] is Open) {
                    assert(after[0] == toks[2]);
                    assert(tok_span(toks[0]).start < tok_span(toks[2]).start);
                    assert(pending_before(frames, start.start));
                    lemma_spans_statement(frames, diags, Some(t->Scalar_0), Some(rest[0]->Op_0), after[0], after.drop_first(), start, end);
                } else {
                    lemma_spans_with_top(frames, FrameView { annotations: Seq::empty(), ..top });
                }
            } else {
                lemma_spans_statement(frames, diags, None, None, t, rest, start, end);
            }
        },
    }
}

proof fn lemma_spans_run(frames: Seq<FrameView>, diags: Seq<DiagnosticView>, toks: Seq<TokView>, end: Span)
    requires
        frames_spans_ok(frames),
        toks_sorted(toks),
        toks.len() > 0 ==> pending_before(frames, tok_span(toks[0]).start),
    ensures
        frames_spans_ok(parse_run(frames, diags, toks, end).0),
    decreases toks.len(),
{
    if toks.len() > 0 && frames.len() > 0 {
        lemma_spans_step(frames, diags, toks, end);
        if let CwtParse::Go(f, d, r) = parse_step(frames, diags, toks, end) {
            if r.len() < toks.len() {
                lemma_spans_run(f, d, r, end);
            }
        }
    }
}

/// Every node of a CWT document, at any depth, spans from its key (or, for a bare value, from its
/// value) through the end of its value, and its key starts at or before its value; a block's value
/// spans from its opening to its closing brace; and every annotation the node carries starts before
/// the node does.
pub proof fn law_node_spans(src: Seq<u8>, file: Seq<u8>)
    requires
        src.len() < usize::MAX,
    ensures
        nodes_spans_ok(cwt_parse(src, file).nodes),
{
    let end = end_of(src);
    let (toks, err) = cwt_tokens(src, file, end);
    lemma_cwt_lex_sorted(src, file, end, if crate::script::starts_with_bom(src) { 3 } else { 0 }, 1);
    let d0 = match err {
        Some(e) => seq![syntax_diag(e.span, e.message)],
        None => Seq::empty(),
    };
    assert(frame_spans_ok(root_frame()));
    assert(frames_spans_ok(seq![root_frame()]));
    assert forall|y: usize| #[trigger] pending_before(seq![root_frame()], y) by {}
    lemma_spans_run(seq![root_frame()], d0, toks, end);
    let (frames, d1) = parse_run(seq![root_frame()], d0, toks, end);
    if frames.len() > 0 {
        assert(frame_spans_ok(frames[0]));
        lemma_finish_nodes(frames, d1, end);
    }
}

proof fn lemma_finish_nodes(frames: Seq<FrameView>, diags: Seq<DiagnosticView>, end: Span)
    requires
        frames.len() > 0,
        nodes_spans_ok(frames[0].nodes),
    ensures
        finish_run(frames, diags, end).0 == frames[0].nodes,
    decreases frames.len(),
{
    if frames.len() > 1 {
        let child = frames.last();
        let d = (diags + orphans(child.annotations)).push(
            syntax_diag(through(child.start, end), "Unclosed block; contents remain unparsed".spec_bytes()),
        ) + orphans(child.attached);
        assert(frames.drop_last()[0] == frames[0]);
        lemma_finish_nodes(frames.drop_last(), d, end);
    }
}

// ---------------------------------------------------------------- what unquoted scalars hold

/// A byte that an unquoted scalar never holds: a space, tab, carriage return or line feed, a
/// brace, `=`, `#` or `"`.
pub open spec fn scalar_breaker(c: u8) -> bool {
    c == 32u8 || c == 9u8 || c == 13u8 || c == 10u8 || c == 123u8 || c == 125u8 || c == 61u8 || c == 35u8 || c == 34u8
}

/// A token that is an unquoted scalar holds at least one byte and none that breaks a scalar.
pub open spec fn plain_scalar_ok(t: TokView) -> bool {
    match t {
        TokView::Scalar(s) => !s.quoted ==> (s.text.len() > 0
            && forall|k: int| 0 <= k < s.text.len() ==> !scalar_breaker(#[trigger] s.text[k])),
        _ => true,
    }
}

proof fn lemma_plain_scalars(b: Seq<u8>, file: Seq<u8>, end: Span, pos: int, line: int)
    requires
        0 <= pos,
    ensures
        forall|j: int| 0 <= j < cwt_lex_from(b, file, end, pos, line).0.len()
            ==> plain_scalar_ok(#[trigger] cwt_lex_from(b, file, end, pos, line).0[j]),
    decreases b.len() - pos,
{
    if pos < b.len() {
        lemma_cwt_step(b, file, end, pos, line);
        match cwt_step(b, file, end, pos, line) {
            CwtStep::Skip(p, l) => {
                lemma_plain_scalars(b, file, end, p, l);
                assert(cwt_lex_from(b, file, end, pos, line) == cwt_lex_from(b, file, end, p, l));
            },
            CwtStep::Tok(t, p, l) => {
                lemma_plain_scalars(b, file, end, p, l);
                lemma_scalar_end(b, pos);
                if let TokView::Scalar(sv) = t {
                    if !sv.quoted {
                        let w = scalar_end(b, pos);
                        assert(!stop_byte(b[pos]));
                        lemma_scalar_end(b, pos + 1);
                        assert(w == scalar_end(b, pos + 1));
                        assert(sv.text == b.subrange(pos, w));
                        assert forall|k: int| 0 <= k < sv.text.len() implies !scalar_breaker(#[trigger] sv.text[k]) by {
                            assert(sv.text[k] == b[pos + k]);
                        }
                    }
                }
                let ts = cwt_lex_from(b, file, end, p, l).0;
                let all = seq![t] + ts;
                assert(cwt_lex_from(b, file, end, pos, line).0 == all);
                assert(plain_scalar_ok(t));
                assert forall|j: int| 0 <= j < all.len() implies plain_scalar_ok(#[trigger] all[j]) by {
                    if j > 0 {
                        assert(all[j] == ts[j - 1]);
                    }
                }
            },
            CwtStep::Fail(_) => {},
        }
    }
}

/// Every unquoted scalar that the CWT tokenizer reads holds at least one byte and none of the bytes
/// that end a scalar: spaces, tabs, line breaks, braces, `=`, `#` and `"`. So `x=y` is the key
/// `x`, the operator and the value `y`, never one scalar.
pub proof fn law_plain_scalars(src: Seq<u8>, file: Seq<u8>)
    ensures
        forall|j: int| 0 <= j < cwt_tokens(src, file, end_of(src)).0.len()
            ==> plain_scalar_ok(#[trigger] cwt_tokens(src, file, end_of(src)).0[j]),
{
    lemma_plain_scalars(src, file, end_of(src), if crate::script::starts_with_bom(src) { 3 } else { 0 }, 1);
}

// ---------------------------------------------------------------- where annotations go

/// How many elements of `s` satisfy `p`.
pub open spec fn count_where<A>(s: Seq<A>, p: spec_fn(A) -> bool) -> nat
    decreases s.len(),
{
    if s.len() == 0 {
        0
    } else {
        count_where(s.drop_last(), p) + if p(s.last()) { 1nat } else { 0nat }
    }
}

pub proof fn lemma_count_append<A>(a: Seq<A>, b: Seq<A>, p: spec_fn(A) -> bool)
    ensures
        count_where(a + b, p) == count_where(a, p) + count_where(b, p),
    decreases b.len(),
{
    if b.len() > 0 {
        lemma_count_append(a, b.drop_last(), p);
        assert((a + b).drop_last() =~= a + b.drop_last());
        assert((a + b).last() == b.last());
    } else {
        assert(a + b =~= a);
    }
}

proof fn lemma_count_one<A>(x: A, p: spec_fn(A) -> bool)
    ensures
        count_where(seq![x], p) == if p(x) { 1nat } else { 0nat },
{
    assert(seq![x].drop_last() =~= Seq::<A>::empty());
    assert(count_where(Seq::<A>::empty(), p) == 0);
    assert(seq![x].last() == x);
}

proof fn lemma_count_insert<A>(s: Seq<A>, i: int, x: A, p: spec_fn(A) -> bool)
    requires
        0 <= i <= s.len(),
    ensures
        count_where(s.insert(i, x), p) == count_where(s, p) + if p(x) { 1nat } else { 0nat },
{
    assert(s.insert(i, x) =~= s.take(i) + (seq![x] + s.skip(i)));
    assert(s =~= s.take(i) + s.skip(i));
    lemma_count_append(s.take(i), seq![x] + s.skip(i), p);
    lemma_count_append(seq![x], s.skip(i), p);
    lemma_count_append(s.take(i), s.skip(i), p);
    lemma_count_one(x, p);
}

/// Sorting diagnostics keeps how many satisfy any property.
proof fn lemma_count_sort(s: Seq<DiagnosticView>, p: spec_fn(DiagnosticView) -> bool)
    ensures
        count_where(sort_diags(s), p) == count_where(s, p),
    decreases s.len(),
{
    if s.len() > 0 {
        let t = sort_diags(s.drop_last());
        lemma_count_sort(s.drop_last(), p);
        lemma_insert_at(t, s.last());
        lemma_count_insert(t, insert_at(t, s.last()), s.last(), p);
    }
}

pub open spec fn is_orphan(d: DiagnosticView) -> bool {
    d.kind == "orphan-annotation".spec_bytes()
}

pub open spec fn is_halt(d: DiagnosticView) -> bool {
    d.kind == "nesting-limit".spec_bytes()
}

pub open spec fn is_unclosed(d: DiagnosticView) -> bool {
    d.message == "Unclosed block; contents remain unparsed".spec_bytes()
}

pub open spec fn is_annot(t: TokView) -> bool {
    t is Annot
}

proof fn lemma_kinds_differ()
    ensures
        "orphan-annotation".spec_bytes() != "nesting-limit".spec_bytes(),
        "orphan-annotation".spec_bytes() != "syntax".spec_bytes(),
{
    broadcast use vstd::string::is_ascii_spec_bytes;
    reveal_strlit("orphan-annotation");
    reveal_strlit("nesting-limit");
    reveal_strlit("syntax");
    assert(is_ascii("orphan-annotation"));
    assert(is_ascii("nesting-limit"));
    assert(is_ascii("syntax"));
    assert("orphan-annotation".spec_bytes().len() == 17);
    assert("nesting-limit".spec_bytes().len() == 13);
    assert("syntax".spec_bytes().len() == 6);
}

pub open spec fn orphan_p() -> spec_fn(DiagnosticView) -> bool {
    |d: DiagnosticView| is_orphan(d)
}

pub open spec fn halt_p() -> spec_fn(DiagnosticView) -> bool {
    |d: DiagnosticView| is_halt(d)
}

pub open spec fn unclosed_p() -> spec_fn(DiagnosticView) -> bool {
    |d: DiagnosticView| is_unclosed(d)
}

pub open spec fn annot_p() -> spec_fn(TokView) -> bool {
    |t: TokView| is_annot(t)
}

/// The annotations a node carries, its own and those of the nodes in its block.
pub open spec fn node_anns(n: NodeView) -> nat
    decreases n,
{
    n.annotations.len() + match n.value {
        ValueView::Block { nodes, .. } => nodes_anns(nodes),
        _ => 0nat,
    }
}

pub open spec fn nodes_anns(s: Seq<NodeView>) -> nat
    decreases s,
{
    if s.len() == 0 {
        0
    } else {
        node_anns(s[0]) + nodes_anns(s.subrange(1, s.len() as int))
    }
}

proof fn lemma_anns_push(s: Seq<NodeView>, x: NodeView)
    ensures
        nodes_anns(s.push(x)) == nodes_anns(s) + node_anns(x),
    decreases s.len(),
{
    let t = s.push(x);
    let tail = t.subrange(1, t.len() as int);
    if s.len() > 0 {
        let r = s.subrange(1, s.len() as int);
        lemma_anns_push(r, x);
        assert(tail =~= r.push(x));
        assert(t[0] == s[0]);
    } else {
        assert(tail =~= Seq::<NodeView>::empty());
        assert(t[0] == x);
    }
}

/// The annotations an open body holds: in its nodes, waiting for the next node, and attached to
/// the body itself.
pub open spec fn frame_anns(f: FrameView) -> nat {
    nodes_anns(f.nodes) + f.annotations.len() + f.attached.len()
}

pub open spec fn frames_anns(s: Seq<FrameView>) -> nat
    decreases s.len(),
{
    if s.len() == 0 {
        0
    } else {
        frames_anns(s.drop_last()) + frame_anns(s.last())
    }
}

proof fn lemma_orphans_count(a: Seq<AnnotationView>)
    ensures
        count_where(orphans(a), orphan_p()) == a.len(),
        count_where(orphans(a), halt_p()) == 0,
    decreases a.len(),
{
    reveal_strlit("orphan-annotation");
    reveal_strlit("nesting-limit");
    lemma_kinds_differ();
    if a.len() > 0 {
        lemma_orphans_count(a.drop_last());
        assert(orphans(a).drop_last() =~= orphans(a.drop_last()));
    } else {
        assert(orphans(a) =~= Seq::<DiagnosticView>::empty());
    }
}

proof fn lemma_anns_with_top(frames: Seq<FrameView>, f: FrameView)
    requires
        frames.len() > 0,
    ensures
        frames_anns(with_top(frames, f)) + frame_anns(frames.last()) == frames_anns(frames) + frame_anns(f),
        with_top(frames, f).len() == frames.len(),
{
    assert(with_top(frames, f).drop_last() =~= frames.drop_last());
}

proof fn lemma_anns_push_frame(frames: Seq<FrameView>, f: FrameView)
    ensures
        frames_anns(frames.push(f)) == frames_anns(frames) + frame_anns(f),
{
    assert(frames.push(f).drop_last() =~= frames);
}

proof fn lemma_count_push<A>(s: Seq<A>, x: A, p: spec_fn(A) -> bool)
    ensures
        count_where(s.push(x), p) == count_where(s, p) + if p(x) { 1nat } else { 0nat },
{
    assert(s.push(x).drop_last() =~= s);
}

proof fn lemma_count_first<A>(s: Seq<A>, p: spec_fn(A) -> bool)
    requires
        s.len() > 0,
    ensures
        count_where(s, p) == count_where(s.drop_first(), p) + if p(s[0]) { 1nat } else { 0nat },
{
    assert(s =~= seq![s[0]] + s.drop_first());
    lemma_count_append(seq![s[0]], s.drop_first(), p);
    lemma_count_one(s[0], p);
}

/// The counts of a diagnostic list after more diagnostics are appended.
proof fn lemma_diags_more(d: Seq<DiagnosticView>, e: Seq<DiagnosticView>)
    ensures
        count_where(d + e, orphan_p()) == count_where(d, orphan_p()) + count_where(e, orphan_p()),
        count_where(d + e, halt_p()) >= count_where(d, halt_p()),
        count_where(d + e, unclosed_p()) >= count_where(d, unclosed_p()),
{
    lemma_count_append(d, e, orphan_p());
    lemma_count_append(d, e, halt_p());
    lemma_count_append(d, e, unclosed_p());
}

proof fn lemma_syntax_push(d: Seq<DiagnosticView>, span: Span, message: Seq<u8>)
    ensures
        count_where(d.push(syntax_diag(span, message)), orphan_p()) == count_where(d, orphan_p()),
        count_where(d.push(syntax_diag(span, message)), halt_p()) >= count_where(d, halt_p()),
        count_where(d.push(syntax_diag(span, message)), unclosed_p()) >= count_where(d, unclosed_p()),
{
    lemma_kinds_differ();
    lemma_count_push(d, syntax_diag(span, message), orphan_p());
    lemma_count_push(d, syntax_diag(span, message), halt_p());
    lemma_count_push(d, syntax_diag(span, message), unclosed_p());
}

/// One step of the CWT reader moves annotations between the tokens still to read, the open
/// bodies and their nodes, and the orphan diagnostics, and loses some only where nesting halts it.
#[verifier::rlimit(60)]
#[verifier::spinoff_prover]
proof fn lemma_anns_step(frames: Seq<FrameView>, diags: Seq<DiagnosticView>, toks: Seq<TokView>, end: Span)
    requires
        frames.len() > 0,
        toks.len() > 0,
    ensures
        match parse_step(frames, diags, toks, end) {
            CwtParse::Go(f, d, r) => {
                &&& f.len() > 0
                &&& f[0].attached == frames[0].attached
                &&& r.len() < toks.len()
                &&& frames_anns(f) + count_where(d, orphan_p()) + count_where(r, annot_p())
                    == frames_anns(frames) + count_where(diags, orphan_p()) + count_where(toks, annot_p())
                &&& count_where(d, halt_p()) >= count_where(diags, halt_p())
                &&& count_where(d, unclosed_p()) >= count_where(diags, unclosed_p())
            },
            CwtParse::Halt(f, d) => {
                &&& frames_anns(f) + count_where(d, orphan_p())
                    <= frames_anns(frames) + count_where(diags, orphan_p()) + count_where(toks, annot_p())
                &&& count_where(d, halt_p()) > count_where(diags, halt_p())
                &&& count_where(d, unclosed_p()) >= count_where(diags, unclosed_p())
            },
        },
{
    lemma_kinds_differ();
    let top = frames.last();
    let t = toks[0];
    let rest = toks.drop_first();
    lemma_count_first(toks, annot_p());
    if rest.len() > 0 {
        lemma_count_first(rest, annot_p());
        if rest.drop_first().len() > 0 {
            lemma_count_first(rest.drop_first(), annot_p());
        }
    }
    lemma_orphans_count(top.annotations);
    lemma_diags_more(diags, orphans(top.annotations));
    let cleared = FrameView { annotations: Seq::empty(), ..top };
    lemma_anns_with_top(frames, cleared);
    match t {
        TokView::Annot(a) => {
            lemma_anns_with_top(frames, FrameView { annotations: top.annotations.push(a), ..top });
        },
        TokView::Close(c) => {
            let d = diags + orphans(top.annotations);
            lemma_syntax_push(d, c, "Unmatched closing brace".spec_bytes());
            if frames.len() > 1 {
                let parent = frames[frames.len() - 2];
                let node = NodeView {
                    key: top.key,
                    op: top.op,
                    value: ValueView::Block { nodes: top.nodes, span: through(top.open, c) },
                    annotations: top.attached,
                    span: through(top.start, c),
                };
                lemma_anns_push(parent.nodes, node);
                let rf = frames.drop_last();
                assert(rf.last() == parent);
                lemma_anns_with_top(rf, FrameView { nodes: parent.nodes.push(node), ..parent });
            }
        },
        TokView::Op(_, sp) => {
            lemma_syntax_push(diags, sp, "Operator has no key".spec_bytes());
        },
        _ => {
            let start = tok_span(t);
            if t is Scalar && rest.len() > 0 && rest[0] is Op {
                let after = rest.drop_first();
                if after.len() > 0 && (after[0] is Scalar || after[0] is Open) {
                    lemma_anns_statement(frames, diags, Some(t->Scalar_0), Some(rest[0]->Op_0), after[0], after.drop_first(), start, end);
                } else {
                    lemma_syntax_push(diags, start, "Missing assignment value".spec_bytes());
                    lemma_diags_more(diags.push(syntax_diag(start, "Missing assignment value".spec_bytes())), orphans(top.annotations));
                }
            } else {
                lemma_anns_statement(frames, diags, None, None, t, rest, start, end);
            }
        },
    }
}

proof fn lemma_anns_statement(frames: Seq<FrameView>, diags: Seq<DiagnosticView>, key: Option<ScalarView>, op: Option<Operator>, value: TokView, rest: Seq<TokView>, start: Span, end: Span)
    requires
        frames.len() > 0,
        !(value is Annot),
    ensures
        match statement(frames, diags, key, op, value, rest, start, end) {
            CwtParse::Go(f, d, r) => f.len() > 0 && r == rest && f[0].attached == frames[0].attached
                && frames_anns(f) + count_where(d, orphan_p()) == frames_anns(frames) + count_where(diags, orphan_p())
                && d == diags,
            CwtParse::Halt(f, d) => frames_anns(f) + count_where(d, orphan_p()) <= frames_anns(frames) + count_where(diags, orphan_p())
                && count_where(d, halt_p()) > count_where(diags, halt_p())
                && count_where(d, unclosed_p()) >= count_where(diags, unclosed_p()),
        },
{
    lemma_kinds_differ();
    let top = frames.last();
    let cleared = FrameView { annotations: Seq::empty(), ..top };
    lemma_anns_with_top(frames, cleared);
    match value {
        TokView::Scalar(v) => {
            let n = NodeView { key, op, value: ValueView::Scalar(v), annotations: top.annotations, span: through(start, v.span) };
            lemma_anns_push(top.nodes, n);
            lemma_anns_with_top(frames, FrameView { nodes: top.nodes.push(n), annotations: Seq::empty(), ..top });
        },
        TokView::Open(open) => {
            let w = with_top(frames, cleared);
            let nf = FrameView { nodes: Seq::empty(), annotations: Seq::empty(), key, op, open, start, attached: top.annotations };
            lemma_anns_push_frame(w, nf);
            let nd = nesting_diag(through(start, end));
            lemma_count_push(diags, nd, orphan_p());
            lemma_count_push(diags, nd, halt_p());
            lemma_count_push(diags, nd, unclosed_p());
            reveal_strlit("nesting-limit");
        },
        _ => {},
    }
}

proof fn lemma_anns_run(frames: Seq<FrameView>, diags: Seq<DiagnosticView>, toks: Seq<TokView>, end: Span)
    requires
        frames.len() > 0,
    ensures
        ({
            let (f, d) = parse_run(frames, diags, toks, end);
            &&& f.len() > 0
            &&& f[0].attached == frames[0].attached
            &&& frames_anns(f) + count_where(d, orphan_p()) <= frames_anns(frames) + count_where(diags, orphan_p()) + count_where(toks, annot_p())
            &&& count_where(d, halt_p()) >= count_where(diags, halt_p())
            &&& count_where(d, unclosed_p()) >= count_where(diags, unclosed_p())
            &&& count_where(d, halt_p()) == count_where(diags, halt_p()) ==> frames_anns(f) + count_where(d, orphan_p())
                == frames_anns(frames) + count_where(diags, orphan_p()) + count_where(toks, annot_p())
        }),
    decreases toks.len(),
{
    if toks.len() > 0 {
        lemma_anns_step(frames, diags, toks, end);
        if let CwtParse::Go(f, d, r) = parse_step(frames, diags, toks, end) {
            lemma_anns_run(f, d, r, end);
        }
    } else {
        assert(count_where(toks, annot_p()) == 0);
    }
}

proof fn lemma_anns_finish(frames: Seq<FrameView>, diags: Seq<DiagnosticView>, end: Span)
    requires
        frames.len() > 0,
    ensures
        ({
            let (nodes, d) = finish_run(frames, diags, end);
            &&& nodes_anns(nodes) + count_where(d, orphan_p()) <= frames_anns(frames) + count_where(diags, orphan_p())
            &&& count_where(d, halt_p()) >= count_where(diags, halt_p())
            &&& count_where(d, unclosed_p()) >= count_where(diags, unclosed_p())
            &&& frames.len() > 1 ==> count_where(d, unclosed_p()) > count_where(diags, unclosed_p())
            &&& frames.len() == 1 && frames[0].attached.len() == 0 ==> nodes_anns(nodes) + count_where(d, orphan_p())
                == frames_anns(frames) + count_where(diags, orphan_p())
        }),
    decreases frames.len(),
{
    lemma_kinds_differ();
    assert(frames_anns(Seq::<FrameView>::empty()) == 0);
    assert(frames_anns(frames) == frames_anns(frames.drop_last()) + frame_anns(frames.last()));
    if frames.len() == 1 {
        lemma_orphans_count(frames[0].annotations);
        lemma_diags_more(diags, orphans(frames[0].annotations));
        assert(frames.drop_last() =~= Seq::<FrameView>::empty());
        assert(frames.last() == frames[0]);
    } else {
        let child = frames.last();
        let d1 = diags + orphans(child.annotations);
        let u = syntax_diag(through(child.start, end), "Unclosed block; contents remain unparsed".spec_bytes());
        let d2 = d1.push(u);
        let d3 = d2 + orphans(child.attached);
        lemma_orphans_count(child.annotations);
        lemma_orphans_count(child.attached);
        lemma_diags_more(diags, orphans(child.annotations));
        lemma_syntax_push(d1, through(child.start, end), "Unclosed block; contents remain unparsed".spec_bytes());
        lemma_count_push(d1, u, unclosed_p());
        lemma_diags_more(d2, orphans(child.attached));
        lemma_anns_finish(frames.drop_last(), d3, end);
    }
}

/// Every annotation comment (two to four `#`) that the CWT tokenizer reads ends up, once, either
/// on a node (the node that follows it, or for a block the node it opens) or as an
/// orphan-annotation diagnostic: never more of them than were read, and exactly as many when
/// reading neither hit the nesting limit nor left a block unclosed (the only two cases where the
/// rest of the input, or an unclosed block's contents, stay unparsed).
pub proof fn law_annotations_kept(src: Seq<u8>, file: Seq<u8>)
    ensures
        nodes_anns(cwt_parse(src, file).nodes) + count_where(cwt_parse(src, file).diagnostics, orphan_p())
            <= count_where(cwt_tokens(src, file, end_of(src)).0, annot_p()),
        count_where(cwt_parse(src, file).diagnostics, halt_p()) == 0
            && count_where(cwt_parse(src, file).diagnostics, unclosed_p()) == 0
            ==> nodes_anns(cwt_parse(src, file).nodes) + count_where(cwt_parse(src, file).diagnostics, orphan_p())
                == count_where(cwt_tokens(src, file, end_of(src)).0, annot_p()),
{
    lemma_kinds_differ();
    let end = end_of(src);
    let (toks, err) = cwt_tokens(src, file, end);
    let d0 = match err {
        Some(e) => seq![syntax_diag(e.span, e.message)],
        None => Seq::empty(),
    };
    assert(count_where(Seq::<DiagnosticView>::empty(), orphan_p()) == 0);
    assert(count_where(Seq::<DiagnosticView>::empty(), halt_p()) == 0);
    if let Some(e) = err {
        lemma_count_one(syntax_diag(e.span, e.message), orphan_p());
        lemma_count_one(syntax_diag(e.span, e.message), halt_p());
    }
    let root = root_frame();
    assert(seq![root].drop_last() =~= Seq::<FrameView>::empty());
    assert(nodes_anns(root.nodes) == 0);
    assert(frames_anns(Seq::<FrameView>::empty()) == 0);
    assert(seq![root].last() == root);
    assert(frames_anns(seq![root]) == 0);
    lemma_anns_run(seq![root], d0, toks, end);
    let (frames, d1) = parse_run(seq![root], d0, toks, end);
    lemma_anns_finish(frames, d1, end);
    let (nodes, d2) = finish_run(frames, d1, end);
    lemma_count_sort(d2, orphan_p());
    lemma_count_sort(d2, halt_p());
    lemma_count_sort(d2, unclosed_p());
}

} // verus!
