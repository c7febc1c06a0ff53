use vstd::prelude::*;
use crate::source::{Span, SyntaxError, ErrorView, error, error_text, syntax_error, zero_span};
use super::representable::{
    bare_token, is_bare_token, is_math_source, is_param_name, is_quotable_content, is_var_name,
    is_writable_text, math_source, param_name, quotable, var_name, writable_text,
    canonical_numeral, spec_canonical_numeral,
};
use super::parser::{parse, spec_parse};
use vstd::utf8::*;
use crate::text::bytes;
use vstd::string::*;

verus! {

/// Operators accepted by game-definition scripts.
#[derive(Clone, Copy, Debug, PartialEq, Eq, Structural)]
pub enum Operator {
    /// Assignment.
    Assign,
    /// Greater than.
    Greater,
    /// Less than.
    Less,
    /// Greater than or equal.
    GreaterEqual,
    /// Less than or equal.
    LessEqual,
    /// Not equal.
    NotEqual,
}

/// The exact source spelling of an operator.
pub open spec fn op_spelling(op: Operator) -> Seq<u8> {
    match op {
        Operator::Assign => seq![61u8],
        Operator::Greater => seq![62u8],
        Operator::Less => seq![60u8],
        Operator::GreaterEqual => seq![62u8, 61u8],
        Operator::LessEqual => seq![60u8, 61u8],
        Operator::NotEqual => seq![33u8, 61u8],
    }
}

/// The operator spelled exactly `t`, if any.
pub open spec fn op_of(t: Seq<u8>) -> Option<Operator> {
    if t == seq![61u8] {
        Some(Operator::Assign)
    } else if t == seq![62u8] {
        Some(Operator::Greater)
    } else if t == seq![60u8] {
        Some(Operator::Less)
    } else if t == seq![62u8, 61u8] {
        Some(Operator::GreaterEqual)
    } else if t == seq![60u8, 61u8] {
        Some(Operator::LessEqual)
    } else if t == seq![33u8, 61u8] {
        Some(Operator::NotEqual)
    } else {
        None
    }
}

/// Every operator reads back from its spelling, and a text reads as an operator only when it is
/// that operator's spelling.
pub proof fn law_operator_spelling(op: Operator, t: Seq<u8>)
    ensures
        op_of(op_spelling(op)) == Some(op),
        op_of(t) == Some(op) ==> op_spelling(op) == t,
{
    let s = op_spelling(op);
    assert(seq![61u8] != seq![62u8] && seq![61u8] != seq![60u8] && seq![62u8] != seq![60u8]) by {
        assert(seq![61u8][0] != seq![62u8][0]);
        assert(seq![61u8][0] != seq![60u8][0]);
        assert(seq![62u8][0] != seq![60u8][0]);
    }
    assert(seq![62u8, 61u8] != seq![60u8, 61u8] && seq![62u8, 61u8] != seq![33u8, 61u8] && seq![60u8, 61u8] != seq![33u8, 61u8]) by {
        assert(seq![62u8, 61u8][0] != seq![60u8, 61u8][0]);
        assert(seq![62u8, 61u8][0] != seq![33u8, 61u8][0]);
        assert(seq![60u8, 61u8][0] != seq![33u8, 61u8][0]);
    }
    if s.len() == 2 {
        assert(s != seq![61u8] && s != seq![62u8] && s != seq![60u8]);
    } else {
        assert(s != seq![62u8, 61u8] && s != seq![60u8, 61u8] && s != seq![33u8, 61u8]);
    }
}

impl Operator {
    /// Exact source spelling.
    pub fn as_str(self) -> (r: &'static str)
        ensures
            r.spec_bytes() == op_spelling(self),
    {
        match self {
            Self::Assign => {
                proof { reveal_strlit("="); crate::text::lemma_lit_bytes("=", seq![61u8]); }
                "="
            },
            Self::Greater => {
                proof { reveal_strlit(">"); crate::text::lemma_lit_bytes(">", seq![62u8]); }
                ">"
            },
            Self::Less => {
                proof { reveal_strlit("<"); crate::text::lemma_lit_bytes("<", seq![60u8]); }
                "<"
            },
            Self::GreaterEqual => {
                proof { reveal_strlit(">="); crate::text::lemma_lit_bytes(">=", seq![62u8, 61u8]); }
                ">="
            },
            Self::LessEqual => {
                proof { reveal_strlit("<="); crate::text::lemma_lit_bytes("<=", seq![60u8, 61u8]); }
                "<="
            },
            Self::NotEqual => {
                proof { reveal_strlit("!="); crate::text::lemma_lit_bytes("!=", seq![33u8, 61u8]); }
                "!="
            },
        }
    }

    /// Recognizes only supported game-script operators.
    pub fn parse(text: &str) -> (r: Option<Self>)
        ensures
            r == op_of(text.spec_bytes()),
    {
        let b = text.as_bytes();
        let n = b.len();
        let r = if n == 1 && b[0] == 61 {
            Some(Self::Assign)
        } else if n == 1 && b[0] == 62 {
            Some(Self::Greater)
        } else if n == 1 && b[0] == 60 {
            Some(Self::Less)
        } else if n == 2 && b[0] == 62 && b[1] == 61 {
            Some(Self::GreaterEqual)
        } else if n == 2 && b[0] == 60 && b[1] == 61 {
            Some(Self::LessEqual)
        } else if n == 2 && b[0] == 33 && b[1] == 61 {
            Some(Self::NotEqual)
        } else {
            None
        };
        proof {
            let t = b@;
            if n == 1 {
                assert(t =~= seq![t[0]]);
            } else if n == 2 {
                assert(t =~= seq![t[0], t[1]]);
            }
        }
        r
    }
}

/// A scalar preserves exact text rather than projecting numbers or interpreting variables.
#[derive(Clone, Debug, PartialEq, Eq)]
pub enum Scalar {
    /// String content, with a quote-preservation hint.
    String {
        /// Raw content; escapes are not decoded.
        value: String,
        /// Whether the writer must retain quotes.
        quoted: bool,
    },
    /// Canonical decimal digits, without floating-point conversion.
    Number {
        /// Canonical decimal spelling.
        lexeme: String,
    },
    /// A yes/no token.
    Bool {
        /// Boolean represented by the token.
        value: bool,
    },
    /// Unresolved script variable.
    Variable {
        /// Name including `@`.
        name: String,
    },
    /// Unevaluated inline math.
    Math {
        /// Entire source token including delimiters.
        source: String,
    },
}

/// A scalar with its texts as UTF-8 bytes.
pub enum ScalarView {
    Str { value: Seq<u8>, quoted: bool },
    Num { lexeme: Seq<u8> },
    Bool { value: bool },
    Var { name: Seq<u8> },
    Math { source: Seq<u8> },
}

impl View for Scalar {
    type V = ScalarView;

    open spec fn view(&self) -> ScalarView {
        match *self {
            Scalar::String { value, quoted } => ScalarView::Str { value: bytes(value), quoted },
            Scalar::Number { lexeme } => ScalarView::Num { lexeme: bytes(lexeme) },
            Scalar::Bool { value } => ScalarView::Bool { value },
            Scalar::Variable { name } => ScalarView::Var { name: bytes(name) },
            Scalar::Math { source } => ScalarView::Math { source: bytes(source) },
        }
    }
}

/// An ordered body, optionally preceded by a header such as `hsv`.
#[derive(Debug, PartialEq, Eq)]
pub struct Container {
    /// Unquoted header at value position.
    pub header: Option<String>,
    /// Ordered children, including duplicate entries and bare values.
    pub items: Vec<Item>,
}

/// A right-hand-side value; conditional regions cannot occur here.
#[derive(Debug, PartialEq, Eq)]
pub enum Value {
    /// One scalar.
    Scalar(Scalar),
    /// A braced body.
    Container(Container),
}

/// A key, operator, and value; keys are never classified as scalars.
#[derive(Debug, PartialEq, Eq)]
pub struct Entry {
    /// Raw key text.
    pub key: String,
    /// Assignment or comparison.
    pub op: Operator,
    /// Assigned or compared value.
    pub value: Value,
}

/// Syntax at item position; the wrapper holds optional source metadata.
#[derive(Debug, PartialEq, Eq)]
pub enum ItemKind {
    /// Keyed entry.
    Entry(Entry),
    /// Bare scalar.
    Scalar(Scalar),
    /// Anonymous container.
    Container(Container),
    /// Balanced conditional parameter body.
    Param {
        /// Parameter name.
        name: String,
        /// Tests absence when true.
        negated: bool,
        /// Balanced body.
        items: Vec<Item>,
    },
    /// Conditional text whose structure depends on substitution.
    ParamText {
        /// Parameter name.
        name: String,
        /// Tests absence when true.
        negated: bool,
        /// Verbatim body, including comments.
        text: String,
    },
}

/// An ordered syntax item with optional source location.
#[derive(Debug, PartialEq, Eq)]
pub struct Item {
    /// The syntax represented by this item.
    pub kind: ItemKind,
    /// Source location, absent for constructed items.
    pub span: Option<Span>,
}

/// A body with texts as UTF-8 bytes.
pub struct ContainerView {
    pub header: Option<Seq<u8>>,
    pub items: Seq<ItemView>,
}

/// A value with texts as UTF-8 bytes.
pub enum ValueView {
    Scalar(ScalarView),
    Container(ContainerView),
}

/// An entry with texts as UTF-8 bytes.
pub struct EntryView {
    pub key: Seq<u8>,
    pub op: Operator,
    pub value: ValueView,
}

/// Item syntax with texts as UTF-8 bytes.
pub enum ItemKindView {
    Entry(EntryView),
    Scalar(ScalarView),
    Container(ContainerView),
    Param { name: Seq<u8>, negated: bool, items: Seq<ItemView> },
    ParamText { name: Seq<u8>, negated: bool, text: Seq<u8> },
}

/// An item with texts as UTF-8 bytes.
pub struct ItemView {
    pub kind: ItemKindView,
    pub span: Option<Span>,
}

pub open spec fn opt_bytes(s: Option<String>) -> Option<Seq<u8>> {
    match s {
        Some(t) => Some(bytes(t)),
        None => None,
    }
}

pub open spec fn container_view(c: Container) -> ContainerView
    decreases c,
{
    ContainerView { header: opt_bytes(c.header), items: items_view(c.items@) }
}

pub open spec fn items_view(s: Seq<Item>) -> Seq<ItemView>
    decreases s,
{
    if s.len() == 0 {
        Seq::empty()
    } else {
        seq![item_view(s[0])] + items_view(s.subrange(1, s.len() as int))
    }
}

pub open spec fn item_view(i: Item) -> ItemView
    decreases i,
{
    ItemView {
        kind: match i.kind {
            ItemKind::Entry(e) => ItemKindView::Entry(EntryView {
                key: bytes(e.key),
                op: e.op,
                value: match e.value {
                    Value::Scalar(s) => ValueView::Scalar(s@),
                    Value::Container(c) => ValueView::Container(container_view(c)),
                },
            }),
            ItemKind::Scalar(s) => ItemKindView::Scalar(s@),
            ItemKind::Container(c) => ItemKindView::Container(container_view(c)),
            ItemKind::Param { name, negated, items } => ItemKindView::Param {
                name: bytes(name),
                negated,
                items: items_view(items@),
            },
            ItemKind::ParamText { name, negated, text } => ItemKindView::ParamText {
                name: bytes(name),
                negated,
                text: bytes(text),
            },
        },
        span: i.span,
    }
}

pub proof fn lemma_items_view(s: Seq<Item>)
    ensures
        items_view(s).len() == s.len(),
        forall|j: int| 0 <= j < s.len() ==> #[trigger] items_view(s)[j] == item_view(s[j]),
    decreases s.len(),
{
    if s.len() > 0 {
        lemma_items_view(s.subrange(1, s.len() as int));
        assert forall|j: int| 0 <= j < s.len() implies #[trigger] items_view(s)[j] == item_view(
            s[j],
        ) by {
            if j > 0 {
                assert(s.subrange(1, s.len() as int)[j - 1] == s[j]);
            }
        }
    }
}

pub proof fn lemma_items_view_push(s: Seq<Item>, i: Item)
    ensures
        items_view(s.push(i)) == items_view(s).push(item_view(i)),
{
    lemma_items_view(s);
    lemma_items_view(s.push(i));
    assert(items_view(s.push(i)) =~= items_view(s).push(item_view(i)));
}

impl View for Item {
    type V = ItemView;

    open spec fn view(&self) -> ItemView {
        item_view(*self)
    }
}

/// A documented repair to malformed source.
#[derive(Clone, Debug, PartialEq, Eq)]
pub struct Diagnostic {
    /// Repair category.
    pub kind: Repair,
    /// Source location of the repair.
    pub span: Span,
    /// Source text that caused the repair.
    pub text: String,
}

/// The only repairs made by the game-script parser.
#[derive(Clone, Copy, Debug, PartialEq, Eq, Structural)]
pub enum Repair {
    /// Skipped an unmatched closing brace.
    StrayClosingBrace,
    /// Closed a container at end of input.
    UnclosedAtEof,
    /// Inserted an assignment before a same-line entry-shaped block.
    OperatorLessEntry,
}

/// A repair with its text as UTF-8 bytes.
pub struct DiagnosticView {
    pub kind: Repair,
    pub span: Span,
    pub text: Seq<u8>,
}

impl View for Diagnostic {
    type V = DiagnosticView;

    open spec fn view(&self) -> DiagnosticView {
        DiagnosticView { kind: self.kind, span: self.span, text: bytes(self.text) }
    }
}

/// Parsed source and all applied repairs.
#[derive(Debug, PartialEq, Eq)]
pub struct Document {
    /// Caller-supplied diagnostic filename.
    pub file: String,
    /// Ordered top-level items.
    pub items: Vec<Item>,
    /// Repairs; strict callers may reject any nonempty list.
    pub diagnostics: Vec<Diagnostic>,
}

/// A document with texts as UTF-8 bytes.
pub struct DocumentView {
    pub file: Seq<u8>,
    pub items: Seq<ItemView>,
    pub diagnostics: Seq<DiagnosticView>,
}

impl View for Document {
    type V = DocumentView;

    open spec fn view(&self) -> DocumentView {
        DocumentView {
            file: bytes(self.file),
            items: items_view(self.items@),
            diagnostics: self.diagnostics@.map_values(|d: Diagnostic| d@),
        }
    }
}

/// The error that rejects a hand-built value.
pub open spec fn invalid_error(message: Seq<u8>) -> ErrorView {
    syntax_error("<constructed>".spec_bytes(), zero_span(), message)
}

/// The error a checked constructor gives for a value it rejects.
pub fn invalid(message: &str) -> (r: SyntaxError)
    ensures
        r@ == invalid_error(message.spec_bytes()),
{
    error("<constructed>", Span::default(), message)
}

impl Item {
    /// Constructs an item without a source location; serialization checks representability.
    pub fn new(kind: ItemKind) -> (r: Self)
        ensures
            r.kind == kind,
            r.span is None,
    {
        Self { kind, span: None }
    }
}

/// Text arguments accepted by the checked constructors: string slices and owned strings.
pub trait IntoText {
    /// The UTF-8 bytes of the text.
    spec fn text_bytes(&self) -> Seq<u8>;

    /// The text as an owned string.
    fn into_text(self) -> (r: String)
        ensures
            bytes(r) == self.text_bytes(),
    ;
}

impl<'a> IntoText for &'a str {
    open spec fn text_bytes(&self) -> Seq<u8> {
        (**self).spec_bytes()
    }

    fn into_text(self) -> (r: String) {
        self.to_owned()
    }
}

impl IntoText for String {
    open spec fn text_bytes(&self) -> Seq<u8> {
        bytes(*self)
    }

    fn into_text(self) -> (r: String) {
        self
    }
}

/// Constructs a representable string, automatically quoted by the serializer when necessary.
pub fn scalar<T: IntoText>(value: T) -> (r: Result<Scalar, SyntaxError>)
    ensures
        if writable_text(value.text_bytes()) {
            r matches Ok(s) && s@ == (ScalarView::Str { value: value.text_bytes(), quoted: false })
        } else {
            r matches Err(e) && e@ == invalid_error("Unrepresentable string".spec_bytes())
        },
{
    let value = value.into_text();
    if !is_writable_text(value.as_str()) {
        return Err(invalid("Unrepresentable string"));
    }
    Ok(Scalar::String { value, quoted: false })
}

/// Constructs an explicitly quoted string without decoding escapes.
pub fn quoted<T: IntoText>(value: T) -> (r: Result<Scalar, SyntaxError>)
    ensures
        if quotable(value.text_bytes()) {
            r matches Ok(s) && s@ == (ScalarView::Str { value: value.text_bytes(), quoted: true })
        } else {
            r matches Err(e) && e@ == invalid_error("Unrepresentable quoted content".spec_bytes())
        },
{
    let value = value.into_text();
    if !is_quotable_content(value.as_str()) {
        return Err(invalid("Unrepresentable quoted content"));
    }
    Ok(Scalar::String { value, quoted: true })
}

/// Constructs a numeral without passing through a floating-point value.
pub fn numeral(text: &str) -> (r: Result<Scalar, SyntaxError>)
    ensures
        match spec_canonical_numeral(text.spec_bytes()) {
            Ok(c) => r matches Ok(s) && s@ == (ScalarView::Num { lexeme: c }),
            Err(e) => r matches Err(x) && x@ == e,
        },
{
    match canonical_numeral(text) {
        Ok(lexeme) => Ok(Scalar::Number { lexeme }),
        Err(e) => Err(e),
    }
}

/// Constructs a boolean scalar.
pub fn boolean(value: bool) -> (r: Scalar)
    ensures
        r@ == (ScalarView::Bool { value }),
{
    Scalar::Bool { value }
}

/// Constructs an unresolved variable reference including `@`.
pub fn var_ref<T: IntoText>(name: T) -> (r: Result<Scalar, SyntaxError>)
    ensures
        if var_name(name.text_bytes()) {
            r matches Ok(s) && s@ == (ScalarView::Var { name: name.text_bytes() })
        } else {
            r matches Err(e) && e@ == invalid_error("Invalid variable reference".spec_bytes())
        },
{
    let name = name.into_text();
    if !is_var_name(name.as_str()) {
        return Err(invalid("Invalid variable reference"));
    }
    Ok(Scalar::Variable { name })
}

/// Constructs an unevaluated inline-math token.
pub fn inline_math<T: IntoText>(source: T) -> (r: Result<Scalar, SyntaxError>)
    ensures
        if math_source(source.text_bytes()) {
            r matches Ok(s) && s@ == (ScalarView::Math { source: source.text_bytes() })
        } else {
            r matches Err(e) && e@ == invalid_error("Invalid inline math".spec_bytes())
        },
{
    let source = source.into_text();
    if !is_math_source(source.as_str()) {
        return Err(invalid("Invalid inline math"));
    }
    Ok(Scalar::Math { source })
}

/// Whether an optional header can be written before a body.
pub open spec fn header_ok(header: Option<String>) -> bool {
    match header {
        Some(h) => bare_token(bytes(h)),
        None => true,
    }
}

/// Constructs a body with an optional unquoted header; depth is checked when serialized.
pub fn container(items: Vec<Item>, header: Option<String>) -> (r: Result<Container, SyntaxError>)
    ensures
        if header_ok(header) {
            r matches Ok(c) && c.items == items && c.header == header
        } else {
            r matches Err(e) && e@ == invalid_error("Invalid container header".spec_bytes())
        },
{
    let bad = match &header {
        Some(h) => !is_bare_token(h.as_str()),
        None => false,
    };
    if bad {
        return Err(invalid("Invalid container header"));
    }
    Ok(Container { items, header })
}

/// Whether a key can be written, bare or quoted.
pub open spec fn key_ok(key: Seq<u8>) -> bool {
    bare_token(key) || quotable(key)
}

/// A constructed entry item with this key, operator, and value.
pub open spec fn entry_item(i: Item, key: Seq<u8>, op: Operator, value: Value) -> bool {
    i.span is None && match i.kind {
        ItemKind::Entry(e) => bytes(e.key) == key && e.op == op && e.value == value,
        _ => false,
    }
}

/// A constructed assignment of a header-less body holding `items`.
pub open spec fn body_item(i: Item, key: Seq<u8>, items: Seq<Item>) -> bool {
    i.span is None && match i.kind {
        ItemKind::Entry(e) => bytes(e.key) == key && e.op == Operator::Assign && match e.value {
            Value::Container(c) => c.header is None && c.items@ == items,
            _ => false,
        },
        _ => false,
    }
}

/// A constructed balanced region.
pub open spec fn param_item(i: Item, name: Seq<u8>, negated: bool, items: Vec<Item>) -> bool {
    i.span is None && match i.kind {
        ItemKind::Param { name: n, negated: g, items: its } => bytes(n) == name && g == negated && its == items,
        _ => false,
    }
}

/// A constructed verbatim region.
pub open spec fn param_text_item(i: Item, name: Seq<u8>, negated: bool, text: Seq<u8>) -> bool {
    i.span is None && match i.kind {
        ItemKind::ParamText { name: n, negated: g, text: t } => bytes(n) == name && g == negated && bytes(t) == text,
        _ => false,
    }
}

/// Constructs a keyed entry, preserving comparison operators and duplicate keys.
pub fn entry<T: IntoText>(key: T, op: Operator, value: Value) -> (r: Result<Item, SyntaxError>)
    ensures
        if key_ok(key.text_bytes()) {
            r matches Ok(i) && entry_item(i, key.text_bytes(), op, value)
        } else {
            r matches Err(e) && e@ == invalid_error("Invalid key".spec_bytes())
        },
{
    let key = key.into_text();
    if !is_bare_token(key.as_str()) && !is_quotable_content(key.as_str()) {
        return Err(invalid("Invalid key"));
    }
    Ok(Item::new(ItemKind::Entry(Entry { key, op, value })))
}

/// Constructs an assignment.
pub fn kv<T: IntoText>(key: T, value: Value) -> (r: Result<Item, SyntaxError>)
    ensures
        if key_ok(key.text_bytes()) {
            r matches Ok(i) && entry_item(i, key.text_bytes(), Operator::Assign, value)
        } else {
            r matches Err(e) && e@ == invalid_error("Invalid key".spec_bytes())
        },
{
    entry(key, Operator::Assign, value)
}

/// Constructs a scalar comparison.
pub fn cmp<T: IntoText>(key: T, op: Operator, value: Scalar) -> (r: Result<Item, SyntaxError>)
    ensures
        if key_ok(key.text_bytes()) {
            r matches Ok(i) && entry_item(i, key.text_bytes(), op, Value::Scalar(value))
        } else {
            r matches Err(e) && e@ == invalid_error("Invalid key".spec_bytes())
        },
{
    entry(key, op, Value::Scalar(value))
}

/// Constructs an assignment to an ordered body.
pub fn block<T: IntoText>(key: T, items: Vec<Item>) -> (r: Result<Item, SyntaxError>)
    ensures
        if key_ok(key.text_bytes()) {
            r matches Ok(i) && body_item(i, key.text_bytes(), items@)
        } else {
            r matches Err(e) && e@ == invalid_error("Invalid key".spec_bytes())
        },
{
    let body = match container(items, None) {
        Ok(c) => c,
        Err(e) => return Err(e),
    };
    kv(key, Value::Container(body))
}

/// Constructs an assignment to a scalar list.
pub fn list<T: IntoText>(key: T, values: Vec<Scalar>) -> (r: Result<Item, SyntaxError>)
    ensures
        if key_ok(key.text_bytes()) {
            r matches Ok(i) && body_item(i, key.text_bytes(), values@.map_values(|v: Scalar| Item::new_spec(ItemKind::Scalar(v))))
        } else {
            r matches Err(e) && e@ == invalid_error("Invalid key".spec_bytes())
        },
{
    let mut values = values;
    let ghost orig = values@;
    let mut rev: Vec<Item> = Vec::new();
    while values.len() > 0
        invariant
            values@.len() + rev@.len() == orig.len(),
            values@ == orig.take(values@.len() as int),
            forall|j: int| 0 <= j < rev@.len() ==> #[trigger] rev@[j] == Item::new_spec(
                ItemKind::Scalar(orig[orig.len() - 1 - j]),
            ),
        decreases values@.len(),
    {
        let v = values.pop().unwrap();
        rev.push(Item::new(ItemKind::Scalar(v)));
        assert(values@ =~= orig.take(values@.len() as int));
    }
    let mut items: Vec<Item> = Vec::new();
    while rev.len() > 0
        invariant
            rev@.len() + items@.len() == orig.len(),
            forall|j: int| 0 <= j < rev@.len() ==> #[trigger] rev@[j] == Item::new_spec(
                ItemKind::Scalar(orig[orig.len() - 1 - j]),
            ),
            forall|j: int| 0 <= j < items@.len() ==> #[trigger] items@[j] == Item::new_spec(
                ItemKind::Scalar(orig[j]),
            ),
        decreases rev@.len(),
    {
        let it = rev.pop().unwrap();
        items.push(it);
    }
    assert(items@ =~= orig.map_values(|v: Scalar| Item::new_spec(ItemKind::Scalar(v))));
    block(key, items)
}

impl Item {
    pub open spec fn new_spec(kind: ItemKind) -> Item {
        Item { kind, span: None }
    }
}

/// Constructs a balanced conditional region.
pub fn param_block<T: IntoText>(name: T, items: Vec<Item>, negated: bool) -> (r: Result<Item, SyntaxError>)
    ensures
        if param_name(name.text_bytes()) {
            r matches Ok(i) && param_item(i, name.text_bytes(), negated, items)
        } else {
            r matches Err(e) && e@ == invalid_error("Invalid parameter name".spec_bytes())
        },
{
    let name = name.into_text();
    if !is_param_name(name.as_str()) {
        return Err(invalid("Invalid parameter name"));
    }
    Ok(Item::new(ItemKind::Param { name, negated, items }))
}

/// The source text of a verbatim region: `[[`, an optional `!`, the name, `]`, the body, `]`.
pub open spec fn region_source(name: Seq<u8>, negated: bool, text: Seq<u8>) -> Seq<u8> {
    seq![91u8, 91u8] + (if negated { seq![33u8] } else { Seq::<u8>::empty() }) + name + seq![93u8] + text + seq![93u8]
}

/// Why a proposed verbatim region would not read back unchanged, if it would not.
pub open spec fn region_problem(name: Seq<u8>, negated: bool, text: Seq<u8>) -> Option<Seq<u8>> {
    if !param_name(name) {
        Some("Invalid parameter name".spec_bytes())
    } else {
        match spec_parse(region_source(name, negated, text), "<region>".spec_bytes()) {
            Ok(doc) => if doc.diagnostics.len() == 0 && doc.items.len() == 1 {
                match doc.items[0].kind {
                    ItemKindView::ParamText { name: n, negated: g, text: t } => if n == name && g == negated && t == text {
                        None
                    } else {
                        Some("Body does not read back as the same verbatim region".spec_bytes())
                    },
                    _ => Some("Body does not read back as the same verbatim region".spec_bytes()),
                }
            } else {
                Some("Body does not read back as one region".spec_bytes())
            },
            Err(e) => Some(error_text(e)),
        }
    }
}

fn region_source_text(name: &str, negated: bool, text: &str) -> (r: String)
    ensures
        bytes(r) == region_source(name.spec_bytes(), negated, text.spec_bytes()),
{
    let mut src: Vec<u8> = Vec::new();
    proof {
        crate::text::lemma_empty_valid();
    }
    crate::text::push_ascii(&mut src, 91);
    crate::text::push_ascii(&mut src, 91);
    if negated {
        crate::text::push_ascii(&mut src, 33);
    }
    crate::text::push_str(&mut src, name);
    crate::text::push_ascii(&mut src, 93);
    crate::text::push_str(&mut src, text);
    crate::text::push_ascii(&mut src, 93);
    proof {
        assert(src@ =~= region_source(name.spec_bytes(), negated, text.spec_bytes()));
    }
    crate::text::string_from_bytes(src)
}

/// Explains why a proposed verbatim region cannot round-trip, or returns `None`.
pub fn region_text_problem(name: &str, negated: bool, text: &str) -> (r: Option<String>)
    ensures
        match region_problem(name.spec_bytes(), negated, text.spec_bytes()) {
            Some(p) => r matches Some(s) && bytes(s) == p,
            None => r is None,
        },
{
    if !is_param_name(name) {
        return Some("Invalid parameter name".to_owned());
    }
    let source = region_source_text(name, negated, text);
    let ghost src = region_source(name.spec_bytes(), negated, text.spec_bytes());
    let s = source.as_str();
    assert(s.spec_bytes() == src);
    match parse(s, "<region>") {
        Ok(doc) => {
            proof {
                lemma_items_view(doc.items@);
            }
            if doc.diagnostics.len() == 0 && doc.items.len() == 1 {
                let same = match &doc.items[0].kind {
                    ItemKind::ParamText { name: n, negated: g, text: t } => crate::text::bytes_eq(
                        n.as_str().as_bytes(),
                        name.as_bytes(),
                    ) && *g == negated && crate::text::bytes_eq(t.as_str().as_bytes(), text.as_bytes()),
                    _ => false,
                };
                proof {
                    let k = doc@.items[0].kind;
                    assert(doc@.items[0] == item_view(doc.items@[0]));
                    if k is ParamText {
                        assert(same == (k->ParamText_name == name.spec_bytes() && k->ParamText_negated == negated && k->ParamText_text == text.spec_bytes()));
                    } else {
                        assert(!same);
                    }
                }
                if same {
                    None
                } else {
                    Some("Body does not read back as the same verbatim region".to_owned())
                }
            } else {
                Some("Body does not read back as one region".to_owned())
            }
        },
        Err(e) => Some(e.to_string()),
    }
}

/// Whether a proposed verbatim region reads back unchanged.
pub fn is_region_text(name: &str, negated: bool, text: &str) -> (r: bool)
    ensures
        r == (region_problem(name.spec_bytes(), negated, text.spec_bytes()) is None),
{
    region_text_problem(name, negated, text).is_none()
}

/// Constructs conditional text only when it reparses as the same verbatim region.
pub fn param_text<T: IntoText, U: IntoText>(name: T, text: U, negated: bool) -> (r: Result<Item, SyntaxError>)
    ensures
        match region_problem(name.text_bytes(), negated, text.text_bytes()) {
            None => r matches Ok(i) && param_text_item(i, name.text_bytes(), negated, text.text_bytes()),
            Some(p) => r matches Err(e) && e@ == invalid_error(p),
        },
{
    let name = name.into_text();
    let text = text.into_text();
    if let Some(problem) = region_text_problem(name.as_str(), negated, text.as_str()) {
        return Err(invalid(problem.as_str()));
    }
    Ok(Item::new(ItemKind::ParamText { name, negated, text }))
}

/// Whether an item is one of the five scalar forms.
pub fn is_scalar(item: &Item) -> (r: bool)
    ensures
        r == (item.kind is Scalar),
{
    match item.kind {
        ItemKind::Scalar(_) => true,
        _ => false,
    }
}

} // verus!
