use vstd::prelude::*;
use vstd::string::*;
use vstd::utf8::*;
use super::ast::{
    ContainerView, Item, ItemKind, ItemKindView, ItemView, Container, Scalar, ScalarView, Value,
    ValueView, invalid, invalid_error, opt_bytes, items_view, item_view, container_view, lemma_items_view,
    op_spelling, region_problem, region_source, region_text_problem, is_scalar,
};
use super::representable::{
    writable_text, bare_key, bare_string, bare_token, canonical, canonical_numeral, is_bare_key, is_bare_string,
    is_bare_token, is_math_source, is_param_name, is_quotable_content, is_var_name, math_source,
    numeral, param_name, quotable, spec_canonical_numeral, starts_with_bom, var_name,
};
use crate::source::{ErrorKind, ErrorView, SyntaxError};
use crate::text::{bytes, push_ascii, push_str, string_from_bytes};
use crate::MAX_NESTING_DEPTH;

verus! {

broadcast use vstd::seq_lib::group_seq_properties;

/// `t` in quotes, when quoting keeps its content.
pub open spec fn spec_quoted_text(t: Seq<u8>) -> Result<Seq<u8>, ErrorView> {
    if quotable(t) {
        Ok(seq![34u8] + t + seq![34u8])
    } else {
        Err(invalid_error("Content cannot be quoted without changing it".spec_bytes()))
    }
}

pub open spec fn unrepresentable() -> ErrorView {
    invalid_error("Unrepresentable scalar".spec_bytes())
}

/// The canonical source of a scalar.
pub open spec fn spec_scalar_text(v: ScalarView) -> Result<Seq<u8>, ErrorView> {
    match v {
        ScalarView::Str { value, quoted } => if quoted || !bare_string(value) {
            spec_quoted_text(value)
        } else {
            Ok(value)
        },
        ScalarView::Bool { value } => if value {
            Ok(seq![121u8, 101u8, 115u8])
        } else {
            Ok(seq![110u8, 111u8])
        },
        ScalarView::Num { lexeme } => if numeral(lexeme) && canonical(lexeme) == lexeme {
            Ok(lexeme)
        } else {
            Err(unrepresentable())
        },
        ScalarView::Var { name } => if var_name(name) {
            Ok(name)
        } else {
            Err(unrepresentable())
        },
        ScalarView::Math { source } => if math_source(source) {
            Ok(source)
        } else {
            Err(unrepresentable())
        },
    }
}

/// `a` followed by `b`, or the first error.
pub open spec fn then(a: Result<Seq<u8>, ErrorView>, b: Result<Seq<u8>, ErrorView>) -> Result<Seq<u8>, ErrorView> {
    match a {
        Err(e) => Err(e),
        Ok(x) => match b {
            Ok(y) => Ok(x + y),
            Err(e) => Err(e),
        },
    }
}

pub open spec fn tabs(d: nat) -> Seq<u8> {
    Seq::new(d, |i: int| 9u8)
}

pub open spec fn nesting_error() -> ErrorView {
    ErrorView { kind: ErrorKind::NestingLimit, ..invalid_error("Nesting exceeds supported limit".spec_bytes()) }
}

/// A header and the space after it.
pub open spec fn header_text(h: Option<Seq<u8>>) -> Seq<u8> {
    match h {
        Some(t) => t + seq![32u8],
        None => Seq::empty(),
    }
}

pub open spec fn all_scalars(items: Seq<ItemView>) -> bool {
    forall|k: int| 0 <= k < items.len() ==> #[trigger] items[k].kind is Scalar
}

/// The text of an item inside a one-line body.
pub open spec fn inline_text(i: ItemView) -> Result<Seq<u8>, ErrorView> {
    match i.kind {
        ItemKindView::Scalar(v) => spec_scalar_text(v),
        _ => Err(invalid_error("Expected a scalar in an inline container".spec_bytes())),
    }
}

/// The one-line body `{ a b c }` of scalar items.
pub open spec fn scalar_list(items: Seq<ItemView>) -> Result<Seq<u8>, ErrorView>
    decreases items.len(),
{
    if items.len() == 0 {
        Ok(Seq::empty())
    } else if items.len() == 1 {
        inline_text(items[0])
    } else {
        then(inline_text(items[0]), then(Ok(seq![32u8]), scalar_list(items.drop_first())))
    }
}

pub open spec fn w_scalar_body(items: Seq<ItemView>) -> Result<Seq<u8>, ErrorView> {
    then(Ok(seq![123u8, 32u8]), then(scalar_list(items), Ok(seq![32u8, 125u8])))
}

/// The closing line of a region body.
pub open spec fn region_close(n: nat, d: nat) -> Seq<u8> {
    (if n == 0 { Seq::<u8>::empty() } else { seq![10u8] }) + tabs(d) + seq![93u8]
}

/// The opening line of a region body.
pub open spec fn region_open(name: Seq<u8>, negated: bool) -> Seq<u8> {
    seq![91u8, 91u8] + (if negated { seq![33u8] } else { Seq::<u8>::empty() }) + name + seq![93u8, 10u8]
}

/// Writing of one item at depth `d`, including its indentation.
pub open spec fn w_item(i: ItemView, d: nat) -> Result<Seq<u8>, ErrorView>
    decreases i,
{
    let text = match i.kind {
        ItemKindView::Scalar(v) => spec_scalar_text(v),
        ItemKindView::Container(c) => w_body(c, d),
        ItemKindView::Entry(e) => {
            let key = if bare_key(e.key) { Ok(e.key) } else { spec_quoted_text(e.key) };
            match key {
                Err(x) => Err(x),
                Ok(k) => {
                    let lead = k + seq![32u8] + op_spelling(e.op) + seq![32u8];
                    match e.value {
                        ValueView::Scalar(v) => then(Ok(lead), spec_scalar_text(v)),
                        ValueView::Container(c) => then(Ok(lead), w_body(c, d)),
                    }
                },
            }
        },
        ItemKindView::Param { name, negated, items } => if d >= MAX_NESTING_DEPTH {
            Err(nesting_error())
        } else if !param_name(name) {
            Err(invalid_error("Invalid parameter name".spec_bytes()))
        } else {
            then(Ok(region_open(name, negated)), then(w_items(items, d + 1, seq![10u8]), Ok(region_close(items.len(), d))))
        },
        ItemKindView::ParamText { name, negated, text } => if d >= MAX_NESTING_DEPTH {
            Err(nesting_error())
        } else {
            match region_problem(name, negated, text) {
                Some(p) => Err(invalid_error(p)),
                None => Ok(region_source(name, negated, text)),
            }
        },
    };
    then(Ok(tabs(d)), text)
}

/// Writing of a body at depth `d`, including its header.
pub open spec fn w_body(c: ContainerView, d: nat) -> Result<Seq<u8>, ErrorView>
    decreases c,
{
    if d >= MAX_NESTING_DEPTH {
        Err(nesting_error())
    } else if c.header matches Some(h) && !bare_token(h) {
        Err(invalid_error("Invalid container header".spec_bytes()))
    } else {
        let body = if c.items.len() == 0 {
            Ok(seq![123u8, 125u8])
        } else if all_scalars(c.items) {
            w_scalar_body(c.items)
        } else {
            then(Ok(seq![123u8, 10u8]), then(w_items(c.items, d + 1, seq![10u8]), Ok(seq![10u8] + tabs(d) + seq![125u8])))
        };
        then(Ok(header_text(c.header)), body)
    }
}

/// Writing of a sequence of items separated by `sep`.
pub open spec fn w_items(items: Seq<ItemView>, d: nat, sep: Seq<u8>) -> Result<Seq<u8>, ErrorView>
    decreases items,
{
    if items.len() == 0 {
        Ok(Seq::empty())
    } else if items.len() == 1 {
        w_item(items[0], d)
    } else {
        then(w_item(items[0], d), then(Ok(sep), w_items(items.subrange(1, items.len() as int), d, sep)))
    }
}

/// Canonical script for a document: items separated by blank lines, and a final newline.
pub open spec fn spec_serialize(items: Seq<ItemView>) -> Result<Seq<u8>, ErrorView> {
    match then(w_items(items, 0, seq![10u8, 10u8]), Ok(seq![10u8])) {
        Ok(out) => if starts_with_bom(out) {
            Err(invalid_error("A document cannot emit a leading BOM as scalar content".spec_bytes()))
        } else {
            Ok(out)
        },
        Err(e) => Err(e),
    }
}

/// The opening line, items, and closing line of a balanced region at depth `d`.
pub open spec fn w_region(name: Seq<u8>, negated: bool, items: Seq<ItemView>, d: nat) -> Result<Seq<u8>, ErrorView> {
    if d >= MAX_NESTING_DEPTH {
        Err(nesting_error())
    } else if !param_name(name) {
        Err(invalid_error("Invalid parameter name".spec_bytes()))
    } else {
        then(Ok(region_open(name, negated)), then(w_items(items, d + 1, seq![10u8]), Ok(region_close(items.len(), d))))
    }
}

pub open spec fn item_size(i: ItemView) -> nat
    decreases i,
{
    10 + match i.kind {
        ItemKindView::Entry(e) => match e.value {
            ValueView::Container(c) => items_size(c.items),
            _ => 0,
        },
        ItemKindView::Container(c) => items_size(c.items),
        ItemKindView::Param { items, .. } => items_size(items),
        _ => 0,
    }
}

pub open spec fn items_size(s: Seq<ItemView>) -> nat
    decreases s,
{
    if s.len() == 0 {
        0
    } else {
        item_size(s[0]) + 1 + items_size(s.subrange(1, s.len() as int))
    }
}

/// Pending work of the writer.
enum Write<'a> {
    Item(&'a Item, usize),
    Body(&'a Container, usize),
    ScalarBody(&'a [Item]),
    Text(String),
    Region(&'a str, bool, &'a [Item], usize),
}

#[verifier::opaque]
spec fn act<'a>(w: Write<'a>) -> Result<Seq<u8>, ErrorView> {
    match w {
        Write::Item(i, d) => w_item(item_view(*i), d as nat),
        Write::Body(c, d) => w_body(container_view(*c), d as nat),
        Write::ScalarBody(items) => w_scalar_body(items_view(items@)),
        Write::Text(t) => Ok(bytes(t)),
        Write::Region(name, negated, items, d) => w_region(name.spec_bytes(), negated, items_view(items@), d as nat),
    }
}

spec fn act_size<'a>(w: Write<'a>) -> nat {
    match w {
        Write::Item(i, d) => item_size(item_view(*i)),
        Write::Body(c, d) => items_size(container_view(*c).items) + 6,
        Write::ScalarBody(_) => 1,
        Write::Text(_) => 1,
        Write::Region(_, _, items, _) => items_size(items_view(items@)) + 6,
    }
}

/// What the pending work writes, top of the stack first.
spec fn stack_res<'a>(s: Seq<Write<'a>>) -> Result<Seq<u8>, ErrorView>
    decreases s.len(),
{
    if s.len() == 0 {
        Ok(Seq::empty())
    } else {
        then(act(s.last()), stack_res(s.drop_last()))
    }
}

spec fn stack_size<'a>(s: Seq<Write<'a>>) -> nat
    decreases s.len(),
{
    if s.len() == 0 {
        0
    } else {
        act_size(s.last()) + stack_size(s.drop_last())
    }
}

proof fn lemma_then_assoc(a: Result<Seq<u8>, ErrorView>, b: Result<Seq<u8>, ErrorView>, c: Result<Seq<u8>, ErrorView>)
    ensures
        then(then(a, b), c) == then(a, then(b, c)),
{
    if let Ok(x) = a {
        if let Ok(y) = b {
            if let Ok(z) = c {
                assert(x + y + z =~= x + (y + z));
            }
        }
    }
}

proof fn lemma_then_empty(a: Result<Seq<u8>, ErrorView>)
    ensures
        then(a, Ok(Seq::empty())) == a,
        then(Ok(Seq::empty()), a) == a,
{
    if let Ok(x) = a {
        assert(x + Seq::<u8>::empty() =~= x);
        assert(Seq::<u8>::empty() + x =~= x);
    }
}

/// Pushing `l` on `r` puts `l`'s work first.
proof fn lemma_stack_append<'a>(r: Seq<Write<'a>>, l: Seq<Write<'a>>)
    ensures
        stack_res(r + l) == then(stack_res(l), stack_res(r)),
        stack_size(r + l) == stack_size(r) + stack_size(l),
    decreases l.len(),
{
    if l.len() == 0 {
        assert(r + l =~= r);
        lemma_then_empty(stack_res(r));
    } else {
        assert((r + l).drop_last() =~= r + l.drop_last());
        assert((r + l).last() == l.last());
        lemma_stack_append(r, l.drop_last());
        lemma_then_assoc(act(l.last()), stack_res(l.drop_last()), stack_res(r));
    }
}

proof fn lemma_stack_push<'a>(r: Seq<Write<'a>>, w: Write<'a>)
    ensures
        stack_res(r.push(w)) == then(act(w), stack_res(r)),
        stack_size(r.push(w)) == stack_size(r) + act_size(w),
{
    assert(r.push(w).drop_last() =~= r);
}

proof fn lemma_act_item<'a>(item: &'a Item, d: usize)
    ensures
        act(Write::Item(item, d)) == w_item(item_view(*item), d as nat),
{
    reveal(act);
}

proof fn lemma_act_text<'a>(w: Write<'a>)
    ensures
        w matches Write::Text(t) ==> act(w) == Ok::<Seq<u8>, ErrorView>(bytes(t)),
{
    reveal(act);
}

/// The scalar is written canonically.
fn quoted_text(text: &str) -> (r: Result<String, SyntaxError>)
    ensures
        match spec_quoted_text(text.spec_bytes()) {
            Ok(t) => r matches Ok(s) && bytes(s) == t,
            Err(e) => r matches Err(x) && x@ == e,
        },
{
    if !is_quotable_content(text) {
        return Err(invalid("Content cannot be quoted without changing it"));
    }
    let mut out: Vec<u8> = Vec::new();
    proof {
        crate::text::lemma_empty_valid();
    }
    push_ascii(&mut out, 34);
    push_str(&mut out, text);
    push_ascii(&mut out, 34);
    proof {
        assert(out@ =~= seq![34u8] + text.spec_bytes() + seq![34u8]);
    }
    Ok(string_from_bytes(out))
}

fn ascii_string(b: &[u8]) -> (r: String)
    requires
        forall|i: int| 0 <= i < b@.len() ==> #[trigger] b@[i] < 0x80,
    ensures
        bytes(r) == b@,
{
    let mut out: Vec<u8> = Vec::new();
    proof {
        crate::text::lemma_empty_valid();
    }
    let mut i: usize = 0;
    while i < b.len()
        invariant
            i <= b@.len(),
            out@ == b@.subrange(0, i as int),
            valid_utf8(out@),
            forall|k: int| 0 <= k < b@.len() ==> #[trigger] b@[k] < 0x80,
        decreases b@.len() - i,
    {
        push_ascii(&mut out, b[i]);
        i += 1;
        assert(out@ =~= b@.subrange(0, i as int));
    }
    assert(b@.subrange(0, b@.len() as int) =~= b@);
    string_from_bytes(out)
}

/// Canonical source for a scalar, rejecting malformed hand-built values.
pub fn scalar_text(value: &Scalar) -> (r: Result<String, SyntaxError>)
    ensures
        match spec_scalar_text(value@) {
            Ok(t) => r matches Ok(s) && bytes(s) == t,
            Err(e) => r matches Err(x) && x@ == e,
        },
{
    match value {
        Scalar::String { value, quoted } => {
            if *quoted || !is_bare_string(value.as_str()) {
                quoted_text(value.as_str())
            } else {
                Ok(value.clone())
            }
        },
        Scalar::Bool { value } => {
            if *value {
                let b: [u8; 3] = [121, 101, 115];
                let r = ascii_string(&b);
                assert(b@ =~= seq![121u8, 101u8, 115u8]);
                Ok(r)
            } else {
                let b: [u8; 2] = [110, 111];
                let r = ascii_string(&b);
                assert(b@ =~= seq![110u8, 111u8]);
                Ok(r)
            }
        },
        Scalar::Number { lexeme } => {
            let canonical_form = match canonical_numeral(lexeme.as_str()) {
                Ok(c) => crate::text::bytes_eq(c.as_str().as_bytes(), lexeme.as_str().as_bytes()),
                Err(_) => false,
            };
            if canonical_form {
                Ok(lexeme.clone())
            } else {
                Err(invalid("Unrepresentable scalar"))
            }
        },
        Scalar::Variable { name } => {
            if is_var_name(name.as_str()) {
                Ok(name.clone())
            } else {
                Err(invalid("Unrepresentable scalar"))
            }
        },
        Scalar::Math { source } => {
            if is_math_source(source.as_str()) {
                Ok(source.clone())
            } else {
                Err(invalid("Unrepresentable scalar"))
            }
        },
    }
}

/// Each item preceded by `sep`.
spec fn sep_items(items: Seq<ItemView>, d: nat, sep: Seq<u8>) -> Result<Seq<u8>, ErrorView>
    decreases items.len(),
{
    if items.len() == 0 {
        Ok(Seq::empty())
    } else {
        then(Ok(sep), then(w_item(items[0], d), sep_items(items.drop_first(), d, sep)))
    }
}

proof fn lemma_w_items_sep(items: Seq<ItemView>, d: nat, sep: Seq<u8>)
    requires
        items.len() > 0,
    ensures
        w_items(items, d, sep) == then(w_item(items[0], d), sep_items(items.drop_first(), d, sep)),
    decreases items.len(),
{
    let rest = items.subrange(1, items.len() as int);
    assert(rest =~= items.drop_first());
    if items.len() == 1 {
        lemma_then_empty(w_item(items[0], d));
    } else {
        lemma_w_items_sep(rest, d, sep);
        assert(rest.subrange(1, rest.len() as int) =~= rest.drop_first());
    }
}

proof fn lemma_items_size(s: Seq<ItemView>, i: int)
    requires
        0 <= i < s.len(),
    ensures
        items_size(s.subrange(i, s.len() as int)) == item_size(s[i]) + 1 + items_size(s.subrange(i + 1, s.len() as int)),
{
    let t = s.subrange(i, s.len() as int);
    assert(t.subrange(1, t.len() as int) =~= s.subrange(i + 1, s.len() as int));
}

fn text_of(b: &str) -> (r: String)
    ensures
        bytes(r) == b.spec_bytes(),
{
    b.to_owned()
}

#[verifier::rlimit(40)]
fn schedule_items<'a>(stack: &mut Vec<Write<'a>>, items: &'a [Item], depth: usize, separator: &str)
    ensures
        stack_res(final(stack)@) == then(w_items(items_view(items@), depth as nat, separator.spec_bytes()), stack_res(old(stack)@)),
        stack_size(final(stack)@) <= stack_size(old(stack)@) + items_size(items_view(items@)),
{
    let ghost v = items_view(items@);
    let ghost sep = separator.spec_bytes();
    let ghost s0 = stack@;
    let n = items.len();
    proof {
        lemma_items_view(items@);
        assert(v.subrange(n as int, n as int) =~= Seq::<ItemView>::empty());
        lemma_then_empty(stack_res(s0));
    }
    let mut i = n;
    while i > 1
        invariant
            1 <= i <= n || (i == 0 && n == 0),
            n == items@.len(),
            v == items_view(items@),
            v.len() == n,
            forall|k: int| 0 <= k < n ==> #[trigger] v[k] == item_view(items@[k]),
            sep == separator.spec_bytes(),
            stack_res(stack@) == then(sep_items(v.subrange(i as int, n as int), depth as nat, sep), stack_res(s0)),
            stack_size(stack@) == stack_size(s0) + items_size(v.subrange(i as int, n as int)),
        decreases i,
    {
        i -= 1;
        let ghost before = stack@;
        stack.push(Write::Item(&items[i], depth));
        let ghost mid = stack@;
        stack.push(Write::Text(text_of(separator)));
        proof {
            lemma_stack_push(before, Write::Item(&items[i as int], depth));
            lemma_stack_push(mid, stack@.last());
            lemma_act_item(&items[i as int], depth);
            lemma_act_text(stack@.last());
            assert(stack@.drop_last() == mid);
            let tail = v.subrange(i as int, n as int);
            assert(tail.drop_first() =~= v.subrange(i + 1, n as int));
            lemma_then_assoc(w_item(v[i as int], depth as nat), sep_items(v.subrange(i + 1, n as int), depth as nat, sep), stack_res(s0));
            lemma_then_assoc(Ok(sep), then(w_item(v[i as int], depth as nat), sep_items(v.subrange(i + 1, n as int), depth as nat, sep)), stack_res(s0));
            lemma_items_size(v, i as int);
        }
    }
    if n > 0 {
        let ghost before = stack@;
        stack.push(Write::Item(&items[0], depth));
        proof {
            lemma_stack_push(before, Write::Item(&items[0], depth));
            lemma_act_item(&items[0], depth);
            assert(v.subrange(1, n as int) =~= v.drop_first());
            lemma_w_items_sep(v, depth as nat, sep);
            lemma_then_assoc(w_item(v[0], depth as nat), sep_items(v.drop_first(), depth as nat, sep), stack_res(s0));
            lemma_items_size(v, 0);
            assert(v.subrange(0, n as int) =~= v);
        }
    }
}

fn enter(depth: usize) -> (r: Result<(), SyntaxError>)
    ensures
        depth >= MAX_NESTING_DEPTH ==> (r matches Err(x) && x@ == nesting_error()),
        depth < MAX_NESTING_DEPTH ==> r is Ok,
{
    if depth >= MAX_NESTING_DEPTH {
        return Err(SyntaxError { kind: ErrorKind::NestingLimit, ..invalid("Nesting exceeds supported limit") });
    }
    Ok(())
}

fn tabs_text(depth: usize) -> (r: String)
    ensures
        bytes(r) == tabs(depth as nat),
{
    let mut out: Vec<u8> = Vec::new();
    proof {
        crate::text::lemma_empty_valid();
    }
    let mut i: usize = 0;
    while i < depth
        invariant
            i <= depth,
            out@ == tabs(i as nat),
            valid_utf8(out@),
        decreases depth - i,
    {
        push_ascii(&mut out, 9);
        i += 1;
        assert(out@ =~= tabs(i as nat));
    }
    string_from_bytes(out)
}

/// Text of ASCII bytes followed by `tail`.
fn ascii_then(prefix: &[u8], tail: &str, suffix: &[u8]) -> (r: String)
    requires
        forall|i: int| 0 <= i < prefix@.len() ==> #[trigger] prefix@[i] < 0x80,
        forall|i: int| 0 <= i < suffix@.len() ==> #[trigger] suffix@[i] < 0x80,
    ensures
        bytes(r) == prefix@ + tail.spec_bytes() + suffix@,
{
    let mut out: Vec<u8> = Vec::new();
    proof {
        crate::text::lemma_empty_valid();
    }
    let mut i: usize = 0;
    while i < prefix.len()
        invariant
            i <= prefix@.len(),
            out@ == prefix@.subrange(0, i as int),
            valid_utf8(out@),
            forall|k: int| 0 <= k < prefix@.len() ==> #[trigger] prefix@[k] < 0x80,
        decreases prefix@.len() - i,
    {
        push_ascii(&mut out, prefix[i]);
        i += 1;
        assert(out@ =~= prefix@.subrange(0, i as int));
    }
    push_str(&mut out, tail);
    let ghost mid = out@;
    let mut j: usize = 0;
    while j < suffix.len()
        invariant
            j <= suffix@.len(),
            out@ == mid + suffix@.subrange(0, j as int),
            valid_utf8(out@),
            forall|k: int| 0 <= k < suffix@.len() ==> #[trigger] suffix@[k] < 0x80,
        decreases suffix@.len() - j,
    {
        push_ascii(&mut out, suffix[j]);
        j += 1;
        assert(out@ =~= mid + suffix@.subrange(0, j as int));
    }
    assert(prefix@.subrange(0, prefix@.len() as int) =~= prefix@);
    assert(suffix@.subrange(0, suffix@.len() as int) =~= suffix@);
    string_from_bytes(out)
}

/// The source text of a verbatim region.
fn region_text_source(name: &str, negated: bool, text: &str) -> (r: String)
    ensures
        bytes(r) == region_source(name.spec_bytes(), negated, text.spec_bytes()),
{
    let mut out: Vec<u8> = Vec::new();
    proof {
        crate::text::lemma_empty_valid();
    }
    push_ascii(&mut out, 91);
    push_ascii(&mut out, 91);
    if negated {
        push_ascii(&mut out, 33);
    }
    push_str(&mut out, name);
    push_ascii(&mut out, 93);
    push_str(&mut out, text);
    push_ascii(&mut out, 93);
    assert(out@ =~= region_source(name.spec_bytes(), negated, text.spec_bytes()));
    string_from_bytes(out)
}

fn schedule_value<'a>(stack: &mut Vec<Write<'a>>, value: &'a Value, depth: usize) -> (r: Result<(), SyntaxError>)
    ensures
        r is Ok ==> stack_res(final(stack)@) == then(
            match value {
                Value::Scalar(v) => spec_scalar_text(v@),
                Value::Container(c) => w_body(container_view(*c), depth as nat),
            },
            stack_res(old(stack)@),
        ) && stack_size(final(stack)@) <= stack_size(old(stack)@) + 6 + match value {
            Value::Scalar(_) => 0,
            Value::Container(c) => items_size(container_view(*c).items),
        },
        r matches Err(x) ==> value matches Value::Scalar(v) && spec_scalar_text(v@) == Err::<Seq<u8>, ErrorView>(x@),
{
    proof {
        reveal(act);
    }
    let ghost s0 = stack@;
    match value {
        Value::Scalar(v) => {
            let t = match scalar_text(v) {
                Ok(t) => t,
                Err(e) => return Err(e),
            };
            stack.push(Write::Text(t));
            proof {
                lemma_stack_push(s0, stack@.last());
            }
        },
        Value::Container(c) => {
            stack.push(Write::Body(c, depth));
            proof {
                lemma_stack_push(s0, stack@.last());
            }
        },
    }
    Ok(())
}

#[verifier::rlimit(40)]
fn schedule_item<'a>(stack: &mut Vec<Write<'a>>, item: &'a Item, depth: usize) -> (r: Result<(), SyntaxError>)
    ensures
        r is Ok ==> stack_res(final(stack)@) == then(w_item(item_view(*item), depth as nat), stack_res(old(stack)@))
            && stack_size(final(stack)@) < stack_size(old(stack)@) + item_size(item_view(*item)),
        r matches Err(x) ==> w_item(item_view(*item), depth as nat) == Err::<Seq<u8>, ErrorView>(x@),
{
    proof {
        reveal(act);
    }
    let ghost s0 = stack@;
    let ghost iv = item_view(*item);
    match &item.kind {
        ItemKind::Scalar(value) => {
            let t = match scalar_text(value) {
                Ok(t) => t,
                Err(e) => return Err(e),
            };
            stack.push(Write::Text(t));
            proof {
                lemma_stack_push(s0, stack@.last());
            }
        },
        ItemKind::Container(body) => {
            stack.push(Write::Body(body, depth));
            proof {
                lemma_stack_push(s0, stack@.last());
            }
        },
        ItemKind::Entry(entry) => {
            let key = if is_bare_key(entry.key.as_str()) {
                entry.key.clone()
            } else {
                match quoted_text(entry.key.as_str()) {
                    Ok(k) => k,
                    Err(e) => return Err(e),
                }
            };
            match schedule_value(stack, &entry.value, depth) {
                Ok(()) => {},
                Err(e) => {
                    return Err(e);
                },
            }
            let ghost s1 = stack@;
            let op = entry.op.as_str();
            let mut lead: Vec<u8> = Vec::new();
            proof {
                crate::text::lemma_empty_valid();
            }
            push_str(&mut lead, key.as_str());
            push_ascii(&mut lead, 32);
            push_str(&mut lead, op);
            push_ascii(&mut lead, 32);
            let lead = string_from_bytes(lead);
            stack.push(Write::Text(lead));
            proof {
                lemma_stack_push(s1, stack@.last());
                let k = bytes(key);
                let ls = k + seq![32u8] + op_spelling(entry.op) + seq![32u8];
                assert(bytes(lead) =~= ls);
                let vres = match &entry.value {
                    Value::Scalar(v) => spec_scalar_text(v@),
                    Value::Container(c) => w_body(container_view(*c), depth as nat),
                };
                lemma_then_assoc(Ok(ls), vres, stack_res(s0));
            }
        },
        ItemKind::Param { name, negated, items } => {
            stack.push(Write::Region(name.as_str(), *negated, items.as_slice(), depth));
            proof {
                lemma_stack_push(s0, stack@.last());
            }
        },
        ItemKind::ParamText { name, negated, text } => {
            match enter(depth) {
                Ok(()) => {},
                Err(e) => return Err(e),
            }
            if let Some(problem) = region_text_problem(name.as_str(), *negated, text.as_str()) {
                return Err(invalid(problem.as_str()));
            }
            let src = region_text_source(name.as_str(), *negated, text.as_str());
            stack.push(Write::Text(src));
            proof {
                lemma_stack_push(s0, stack@.last());
            }
        },
    }
    let ghost s2 = stack@;
    let ghost inner = stack_res(s2);
    stack.push(Write::Text(tabs_text(depth)));
    proof {
        lemma_stack_push(s2, stack@.last());
        let text = match iv.kind {
            ItemKindView::Scalar(v) => spec_scalar_text(v),
            ItemKindView::Container(c) => w_body(c, depth as nat),
            ItemKindView::Entry(e) => {
                let key = if bare_key(e.key) { Ok(e.key) } else { spec_quoted_text(e.key) };
                match key {
                    Err(x) => Err(x),
                    Ok(k) => {
                        let lead = k + seq![32u8] + op_spelling(e.op) + seq![32u8];
                        match e.value {
                            ValueView::Scalar(v) => then(Ok(lead), spec_scalar_text(v)),
                            ValueView::Container(c) => then(Ok(lead), w_body(c, depth as nat)),
                        }
                    },
                }
            },
            ItemKindView::Param { name, negated, items } => w_region(name, negated, items, depth as nat),
            ItemKindView::ParamText { name, negated, text } => if depth >= MAX_NESTING_DEPTH {
                Err(nesting_error())
            } else {
                match region_problem(name, negated, text) {
                    Some(p) => Err(invalid_error(p)),
                    None => Ok(region_source(name, negated, text)),
                }
            },
        };
        assert(w_item(iv, depth as nat) == then(Ok(tabs(depth as nat)), text));
        assert(inner == then(text, stack_res(s0)));
        lemma_then_assoc(Ok(tabs(depth as nat)), text, stack_res(s0));
    }
    Ok(())
}

fn all_scalar_items(items: &[Item]) -> (r: bool)
    ensures
        r == all_scalars(items_view(items@)),
{
    proof {
        lemma_items_view(items@);
    }
    let mut i: usize = 0;
    while i < items.len()
        invariant
            i <= items@.len(),
            items_view(items@).len() == items@.len(),
            forall|k: int| 0 <= k < items@.len() ==> #[trigger] items_view(items@)[k] == item_view(items@[k]),
            forall|k: int| 0 <= k < i ==> (#[trigger] items_view(items@)[k]).kind is Scalar,
        decreases items@.len() - i,
    {
        if !is_scalar(&items[i]) {
            assert(!(items_view(items@)[i as int].kind is Scalar));
            return false;
        }
        i += 1;
    }
    true
}

/// The braces and items of a non-empty-header body at depth `d`.
pub open spec fn block_text(items: Seq<ItemView>, d: nat) -> Result<Seq<u8>, ErrorView> {
    if items.len() == 0 {
        Ok(seq![123u8, 125u8])
    } else if all_scalars(items) {
        w_scalar_body(items)
    } else {
        then(Ok(seq![123u8, 10u8]), then(w_items(items, d + 1, seq![10u8]), Ok(seq![10u8] + tabs(d) + seq![125u8])))
    }
}

pub proof fn lemma_w_body(c: ContainerView, d: nat)
    ensures
        d >= MAX_NESTING_DEPTH ==> w_body(c, d) == Err::<Seq<u8>, ErrorView>(nesting_error()),
        d < MAX_NESTING_DEPTH && (c.header matches Some(h) && !bare_token(h))
            ==> w_body(c, d) == Err::<Seq<u8>, ErrorView>(invalid_error("Invalid container header".spec_bytes())),
        d < MAX_NESTING_DEPTH && !(c.header matches Some(h) && !bare_token(h))
            ==> w_body(c, d) == then(Ok(header_text(c.header)), block_text(c.items, d)),
{
}

#[verifier::rlimit(100)]
#[verifier::spinoff_prover]
fn schedule_block<'a>(stack: &mut Vec<Write<'a>>, items: &'a [Item], depth: usize)
    requires
        depth < MAX_NESTING_DEPTH,
    ensures
        stack_res(final(stack)@) == then(block_text(items_view(items@), depth as nat), stack_res(old(stack)@)),
        stack_size(final(stack)@) < stack_size(old(stack)@) + items_size(items_view(items@)) + 5,
{
    proof {
        reveal(act);
    }
    let ghost s0 = stack@;
    let ghost v = items_view(items@);
    proof {
        lemma_items_view(items@);
    }
    if items.len() == 0 {
        let b: [u8; 2] = [123, 125];
        let t = ascii_string(&b);
        stack.push(Write::Text(t));
        proof {
            assert(b@ =~= seq![123u8, 125u8]);
            lemma_stack_push(s0, stack@.last());
        }
    } else if all_scalar_items(items) {
        stack.push(Write::ScalarBody(items));
        proof {
            lemma_stack_push(s0, stack@.last());
        }
    } else {
        let nl: [u8; 1] = [10];
        let close: [u8; 1] = [125];
        let tabs_now = tabs_text(depth);
        let t = ascii_then(&nl, tabs_now.as_str(), &close);
        stack.push(Write::Text(t));
        proof {
            lemma_stack_push(s0, stack@.last());
        }
        let lf = [10u8];
        let sep = ascii_string(&lf);
        schedule_items(stack, items, depth + 1, sep.as_str());
        let ghost s2 = stack@;
        let open: [u8; 2] = [123, 10];
        stack.push(Write::Text(ascii_string(&open)));
        proof {
            assert(open@ =~= seq![123u8, 10u8]);
            assert(lf@ =~= seq![10u8]);
            assert(nl@ + tabs(depth as nat) + close@ =~= seq![10u8] + tabs(depth as nat) + seq![125u8]);
            lemma_stack_push(s2, stack@.last());
            lemma_then_assoc(w_items(v, (depth + 1) as nat, seq![10u8]), Ok(seq![10u8] + tabs(depth as nat) + seq![125u8]), stack_res(s0));
            lemma_then_assoc(Ok(seq![123u8, 10u8]), then(w_items(v, (depth + 1) as nat, seq![10u8]), Ok(seq![10u8] + tabs(depth as nat) + seq![125u8])), stack_res(s0));
        }
    }
}

fn schedule_body<'a>(stack: &mut Vec<Write<'a>>, body: &'a Container, depth: usize) -> (r: Result<(), SyntaxError>)
    ensures
        r is Ok ==> stack_res(final(stack)@) == then(w_body(container_view(*body), depth as nat), stack_res(old(stack)@))
            && stack_size(final(stack)@) < stack_size(old(stack)@) + items_size(container_view(*body).items) + 6,
        r matches Err(x) ==> w_body(container_view(*body), depth as nat) == Err::<Seq<u8>, ErrorView>(x@),
{
    proof {
        reveal(act);
    }
    let ghost s0 = stack@;
    let ghost cv = container_view(*body);
    proof {
        lemma_w_body(cv, depth as nat);
    }
    match enter(depth) {
        Ok(()) => {},
        Err(e) => return Err(e),
    }
    let header = header_source(&body.header);
    let header = match header {
        Some(t) => t,
        None => return Err(invalid("Invalid container header")),
    };
    schedule_block(stack, body.items.as_slice(), depth);
    let ghost s3 = stack@;
    stack.push(Write::Text(header));
    proof {
        lemma_stack_push(s3, stack@.last());
        lemma_then_assoc(Ok(header_text(cv.header)), block_text(cv.items, depth as nat), stack_res(s0));
    }
    Ok(())
}

/// The header text of a body, or `None` for a header that is not a bare token.
fn header_source(header: &Option<String>) -> (r: Option<String>)
    ensures
        match r {
            Some(t) => !(opt_bytes(*header) matches Some(h) && !bare_token(h)) && bytes(t) == header_text(opt_bytes(*header)),
            None => opt_bytes(*header) matches Some(h) && !bare_token(h),
        },
{
    match header {
        Some(h) => {
            if !is_bare_token(h.as_str()) {
                return None;
            }
            let sp: [u8; 1] = [32];
            let e: [u8; 0] = [];
            let t = ascii_then(&e, h.as_str(), &sp);
            assert(bytes(t) =~= header_text(opt_bytes(*header)));
            Some(t)
        },
        None => {
            let t = String::new();
            assert(bytes(t) =~= header_text(opt_bytes(*header)));
            Some(t)
        },
    }
}

#[verifier::rlimit(100)]
#[verifier::spinoff_prover]
fn schedule_region<'a>(stack: &mut Vec<Write<'a>>, name: &'a str, negated: bool, items: &'a [Item], depth: usize) -> (r: Result<(), SyntaxError>)
    ensures
        r is Ok ==> stack_res(final(stack)@) == then(w_region(name.spec_bytes(), negated, items_view(items@), depth as nat), stack_res(old(stack)@))
            && stack_size(final(stack)@) < stack_size(old(stack)@) + items_size(items_view(items@)) + 6,
        r matches Err(x) ==> w_region(name.spec_bytes(), negated, items_view(items@), depth as nat) == Err::<Seq<u8>, ErrorView>(x@),
{
    proof {
        reveal(act);
    }
    let ghost s0 = stack@;
    let ghost iv = items_view(items@);
    match enter(depth) {
        Ok(()) => {},
        Err(e) => return Err(e),
    }
    if !is_param_name(name) {
        return Err(invalid("Invalid parameter name"));
    }
    proof {
        lemma_items_view(items@);
    }
    let tabs_now = tabs_text(depth);
    let close: [u8; 1] = [93];
    let e: [u8; 0] = [];
    let nl: [u8; 1] = [10];
    let t = if items.len() == 0 {
        ascii_then(&e, tabs_now.as_str(), &close)
    } else {
        ascii_then(&nl, tabs_now.as_str(), &close)
    };
    proof {
        assert(bytes(t) =~= region_close(iv.len(), depth as nat));
    }
    stack.push(Write::Text(t));
    proof {
        lemma_stack_push(s0, stack@.last());
    }
    let lf = [10u8];
    let sep = ascii_string(&lf);
    schedule_items(stack, items, depth + 1, sep.as_str());
    let ghost s2 = stack@;
    let mut open: Vec<u8> = Vec::new();
    proof {
        crate::text::lemma_empty_valid();
    }
    push_ascii(&mut open, 91);
    push_ascii(&mut open, 91);
    if negated {
        push_ascii(&mut open, 33);
    }
    push_str(&mut open, name);
    push_ascii(&mut open, 93);
    push_ascii(&mut open, 10);
    proof {
        assert(open@ =~= region_open(name.spec_bytes(), negated));
    }
    stack.push(Write::Text(string_from_bytes(open)));
    proof {
        assert(lf@ =~= seq![10u8]);
        lemma_stack_push(s2, stack@.last());
        lemma_then_assoc(w_items(iv, (depth + 1) as nat, seq![10u8]), Ok(region_close(iv.len(), depth as nat)), stack_res(s0));
        lemma_then_assoc(Ok(region_open(name.spec_bytes(), negated)), then(w_items(iv, (depth + 1) as nat, seq![10u8]), Ok(region_close(iv.len(), depth as nat))), stack_res(s0));
    }
    Ok(())
}

/// Each scalar preceded by a space.
spec fn spaced_scalars(items: Seq<ItemView>) -> Result<Seq<u8>, ErrorView>
    decreases items.len(),
{
    if items.len() == 0 {
        Ok(Seq::empty())
    } else {
        then(Ok(seq![32u8]), then(inline_text(items[0]), spaced_scalars(items.drop_first())))
    }
}

proof fn lemma_scalar_list(items: Seq<ItemView>)
    requires
        items.len() > 0,
    ensures
        scalar_list(items) == then(inline_text(items[0]), spaced_scalars(items.drop_first())),
    decreases items.len(),
{
    if items.len() == 1 {
        lemma_then_empty(inline_text(items[0]));
    } else {
        lemma_scalar_list(items.drop_first());
        assert(items.drop_first().drop_first() =~= items.subrange(2, items.len() as int));
    }
}

fn inline_item_text(item: &Item) -> (r: Result<String, SyntaxError>)
    ensures
        match inline_text(item_view(*item)) {
            Ok(t) => r matches Ok(s) && bytes(s) == t,
            Err(e) => r matches Err(x) && x@ == e,
        },
{
    match &item.kind {
        ItemKind::Scalar(value) => scalar_text(value),
        _ => Err(invalid("Expected a scalar in an inline container")),
    }
}

fn append_scalar_body(out: &mut Vec<u8>, items: &[Item]) -> (r: Result<(), SyntaxError>)
    requires
        valid_utf8(old(out)@),
    ensures
        valid_utf8(final(out)@),
        match w_scalar_body(items_view(items@)) {
            Ok(t) => r is Ok && final(out)@ == old(out)@ + t,
            Err(e) => r matches Err(x) && x@ == e,
        },
{
    let ghost start = out@;
    let ghost v = items_view(items@);
    proof {
        lemma_items_view(items@);
    }
    push_ascii(out, 123);
    push_ascii(out, 32);
    let ghost open = out@;
    let n = items.len();
    let mut i: usize = 0;
    let ghost mut acc: Seq<u8> = Seq::empty();
    while i < n
        invariant
            n == items@.len(),
            v.len() == n,
            forall|k: int| 0 <= k < n ==> #[trigger] v[k] == item_view(items@[k]),
            i <= n,
            valid_utf8(out@),
            out@ == open + acc,
            open == start + seq![123u8, 32u8],
            v == items_view(items@),
            i == 0 ==> acc.len() == 0,
            i > 0 ==> scalar_list(v) == then(Ok(acc), spaced_scalars(v.subrange(i as int, n as int))),
        decreases n - i,
    {
        let t = match inline_item_text(&items[i]) {
            Ok(t) => t,
            Err(e) => {
                proof {
                    let tail = v.subrange(i as int, n as int);
                    assert(tail[0] == v[i as int]);
                    assert(inline_text(v[i as int]) == Err::<Seq<u8>, ErrorView>(e@));
                    if i == 0 {
                        assert(tail =~= v);
                        lemma_scalar_list(v);
                        assert(scalar_list(v) == Err::<Seq<u8>, ErrorView>(e@));
                    } else {
                        assert(spaced_scalars(tail) == then(Ok(seq![32u8]), then(inline_text(tail[0]), spaced_scalars(tail.drop_first()))));
                        assert(spaced_scalars(tail) == Err::<Seq<u8>, ErrorView>(e@));
                        assert(scalar_list(v) == Err::<Seq<u8>, ErrorView>(e@));
                    }
                }
                return Err(e);
            },
        };
        proof {
            let tail = v.subrange(i as int, n as int);
            assert(tail[0] == v[i as int]);
            assert(tail.drop_first() =~= v.subrange(i + 1, n as int));
            if i == 0 {
                assert(tail =~= v);
                lemma_scalar_list(v);
            } else {
                lemma_then_assoc(Ok(acc), Ok(seq![32u8]), then(inline_text(v[i as int]), spaced_scalars(tail.drop_first())));
                lemma_then_assoc(Ok(acc + seq![32u8]), inline_text(v[i as int]), spaced_scalars(tail.drop_first()));
            }
        }
        if i > 0 {
            push_ascii(out, 32);
            proof {
                acc = acc + seq![32u8];
            }
        }
        push_str(out, t.as_str());
        proof {
            acc = acc + bytes(t);
            assert(out@ =~= open + acc);
        }
        i += 1;
    }
    proof {
        if n == 0 {
            assert(v.len() == 0);
        } else {
            assert(v.subrange(n as int, n as int) =~= Seq::<ItemView>::empty());
        }
    }
    push_ascii(out, 32);
    push_ascii(out, 125);
    proof {
        assert(out@ =~= start + (seq![123u8, 32u8] + acc + seq![32u8, 125u8]));
    }
    Ok(())
}

/// Carries out one piece of pending work.
fn perform<'a>(stack: &mut Vec<Write<'a>>, out: &mut Vec<u8>, action: Write<'a>) -> (r: Result<(), SyntaxError>)
    requires
        valid_utf8(old(out)@),
    ensures
        valid_utf8(final(out)@),
        r is Ok ==> then(Ok(final(out)@), stack_res(final(stack)@)) == then(Ok(old(out)@), then(act(action), stack_res(old(stack)@)))
            && stack_size(final(stack)@) < stack_size(old(stack)@) + act_size(action),
        r matches Err(x) ==> act(action) == Err::<Seq<u8>, ErrorView>(x@),
{
    proof {
        reveal(act);
    }
    let ghost o = out@;
    let ghost s0 = stack@;
    match action {
        Write::Text(t) => {
            push_str(out, t.as_str());
            proof {
                lemma_then_assoc(Ok(o), Ok(bytes(t)), stack_res(s0));
            }
        },
        Write::ScalarBody(body) => {
            match append_scalar_body(out, body) {
                Ok(()) => {},
                Err(e) => return Err(e),
            }
            proof {
                lemma_then_assoc(Ok(o), act(action), stack_res(s0));
            }
        },
        Write::Item(item, depth) => {
            match schedule_item(stack, item, depth) {
                Ok(()) => {},
                Err(e) => return Err(e),
            }
        },
        Write::Body(body, depth) => {
            match schedule_body(stack, body, depth) {
                Ok(()) => {},
                Err(e) => return Err(e),
            }
        },
        Write::Region(name, negated, body, depth) => {
            match schedule_region(stack, name, negated, body, depth) {
                Ok(()) => {},
                Err(e) => return Err(e),
            }
        },
    }
    Ok(())
}

/// Writes canonical script with tabs and a final newline. Locations, comments, and repairs are not reproduced.
pub fn serialize(items: &[Item]) -> (r: Result<String, SyntaxError>)
    ensures
        match spec_serialize(items_view(items@)) {
            Ok(t) => r matches Ok(s) && bytes(s) == t,
            Err(e) => r matches Err(x) && x@ == e,
        },
{
    let ghost v = items_view(items@);
    let ghost target = then(w_items(v, 0, seq![10u8, 10u8]), Ok(seq![10u8]));
    let lf: [u8; 1] = [10];
    let mut stack: Vec<Write> = Vec::new();
    stack.push(Write::Text(ascii_string(&lf)));
    proof {
        assert(lf@ =~= seq![10u8]);
        lemma_stack_push(Seq::empty(), stack@.last());
        assert(act(stack@.last()) == Ok::<Seq<u8>, ErrorView>(seq![10u8])) by {
            reveal(act);
        }
        assert(stack@ =~= Seq::<Write>::empty().push(stack@.last()));
        lemma_then_empty(Ok(seq![10u8]));
    }
    let blank: [u8; 2] = [10, 10];
    let sep = ascii_string(&blank);
    proof {
        assert(blank@ =~= seq![10u8, 10u8]);
    }
    schedule_items(&mut stack, items, 0, sep.as_str());
    let mut out: Vec<u8> = Vec::new();
    proof {
        crate::text::lemma_empty_valid();
        lemma_then_empty(target);
    }
    while stack.len() > 0
        invariant
            valid_utf8(out@),
            then(Ok(out@), stack_res(stack@)) == target,
            target == then(w_items(items_view(items@), 0, seq![10u8, 10u8]), Ok(seq![10u8])),
        decreases stack_size(stack@),
    {
        let ghost before = stack@;
        let ghost o = out@;
        let action = stack.pop().unwrap();
        let ghost rest = stack@;
        proof {
            assert(rest == before.drop_last());
            assert(stack_res(before) == then(act(action), stack_res(rest)));
            assert(stack_size(before) == act_size(action) + stack_size(rest));
        }
        match perform(&mut stack, &mut out, action) {
            Ok(()) => {},
            Err(e) => {
                proof {
                    lemma_then_assoc(Ok(o), act(action), stack_res(rest));
                }
                return Err(e);
            },
        }
        proof {
            lemma_then_assoc(Ok(o), act(action), stack_res(rest));
        }
    }
    proof {
        lemma_then_empty(Ok(out@));
    }
    if out.len() >= 3 && out[0] == 0xEF && out[1] == 0xBB && out[2] == 0xBF {
        return Err(invalid("A document cannot emit a leading BOM as scalar content"));
    }
    Ok(string_from_bytes(out))
}

/// Every scalar that a checked constructor (`scalar`, `quoted`, `numeral`, `boolean`, `var_ref`,
/// `inline_math`) accepts has a canonical text, so writing it never fails.
pub proof fn law_constructed_scalars_write(t: Seq<u8>, b: bool)
    ensures
        writable_text(t) ==> spec_scalar_text(ScalarView::Str { value: t, quoted: false }) == Ok::<Seq<u8>, ErrorView>(
            if bare_string(t) { t } else { seq![34u8] + t + seq![34u8] },
        ),
        quotable(t) ==> spec_scalar_text(ScalarView::Str { value: t, quoted: true }) == Ok::<Seq<u8>, ErrorView>(
            seq![34u8] + t + seq![34u8],
        ),
        numeral(t) ==> spec_scalar_text(ScalarView::Num { lexeme: canonical(t) }) == Ok::<Seq<u8>, ErrorView>(canonical(t)),
        spec_scalar_text(ScalarView::Bool { value: b }) is Ok,
        var_name(t) ==> spec_scalar_text(ScalarView::Var { name: t }) == Ok::<Seq<u8>, ErrorView>(t),
        math_source(t) ==> spec_scalar_text(ScalarView::Math { source: t }) == Ok::<Seq<u8>, ErrorView>(t),
{
    if numeral(t) {
        super::representable::law_canonical_fixpoint(t);
    }
}

/// A written document always ends with a newline and never begins with a byte-order mark.
pub proof fn law_written_documents_end_with_newline(items: Seq<ItemView>)
    ensures
        spec_serialize(items) matches Ok(out) ==> out.len() > 0 && out.last() == 10u8 && !starts_with_bom(out),
{
}

} // verus!
