use vstd::prelude::*;
use vstd::string::*;
use super::ast::{
    Container, ContainerView, Diagnostic, Document, Entry, EntryView, Item, ItemKind, ItemKindView, ItemView,
    Scalar, Value, ValueView, container_view, item_view, items_view, lemma_items_view, lemma_items_view_push,
};
use super::lexer::{Kind, TokenView, lex, token_weight, tokens_weight, lemma_lex_weight};
use super::parser::{flat_items, region_items, region_text_item};
use crate::source::{ErrorView, SyntaxError};

verus! {

broadcast use vstd::function::group_function_axioms;

/// How traversal treats the body of a verbatim conditional region.
#[derive(Clone, Copy, Debug)]
pub enum RegionPolicy<'a> {
    /// Leave the body uninterpreted.
    Skip,
    /// Tokenize the body as a flat item sequence using this diagnostic filename.
    Read(&'a str),
}

/// Visitor decision, including the context to pass to children.
#[derive(Clone, Debug)]
pub enum WalkControl<C> {
    /// Visit children with this context.
    Continue(C),
    /// Skip this item's descendants.
    Skip,
    /// Stop the entire traversal.
    Stop,
}

/// The children of a verbatim region body under a policy.
#[verifier::opaque]
pub open spec fn region_children(regions: RegionPolicy, text: Seq<u8>) -> Result<Seq<ItemView>, ErrorView> {
    match regions {
        RegionPolicy::Skip => Ok(Seq::empty()),
        RegionPolicy::Read(file) => match lex(text, 0, file.spec_bytes(), 1) {
            Ok(ts) => Ok(flat_items(ts)),
            Err(e) => Err(e),
        },
    }
}

/// An entry's value as an item without source metadata.
pub open spec fn value_item(v: ValueView) -> ItemView {
    ItemView {
        kind: match v {
            ValueView::Scalar(s) => ItemKindView::Scalar(s),
            ValueView::Container(c) => ItemKindView::Container(c),
        },
        span: None,
    }
}

/// The children of an item, in order.
pub open spec fn children_view(i: ItemView, regions: RegionPolicy) -> Result<Seq<ItemView>, ErrorView> {
    match i.kind {
        ItemKindView::Entry(e) => Ok(seq![value_item(e.value)]),
        ItemKindView::Container(c) => Ok(c.items),
        ItemKindView::Param { items, .. } => Ok(items),
        ItemKindView::ParamText { text, .. } => region_children(regions, text),
        ItemKindView::Scalar(_) => Ok(Seq::empty()),
    }
}

fn copy_scalar(s: &Scalar) -> (r: Scalar)
    ensures
        r == *s,
{
    match s {
        Scalar::String { value, quoted } => Scalar::String { value: value.clone(), quoted: *quoted },
        Scalar::Number { lexeme } => Scalar::Number { lexeme: lexeme.clone() },
        Scalar::Bool { value } => Scalar::Bool { value: *value },
        Scalar::Variable { name } => Scalar::Variable { name: name.clone() },
        Scalar::Math { source } => Scalar::Math { source: source.clone() },
    }
}

fn copy_container(c: &Container) -> (r: Container)
    ensures
        container_view(r) == container_view(*c),
    decreases c, 2nat,
{
    let header = match &c.header {
        Some(h) => Some(h.clone()),
        None => None,
    };
    let items = copy_items(c.items.as_slice());
    Container { header, items }
}

/// An owned copy of items, equal in every field.
fn copy_items(items: &[Item]) -> (r: Vec<Item>)
    ensures
        items_view(r@) == items_view(items@),
    decreases items@, 1nat,
{
    let mut out: Vec<Item> = Vec::new();
    let mut i: usize = 0;
    proof {
        lemma_items_view(items@);
        lemma_items_view(out@);
    }
    while i < items.len()
        invariant
            i <= items@.len(),
            items_view(out@) == items_view(items@).subrange(0, i as int),
            items_view(items@).len() == items@.len(),
            forall|k: int| 0 <= k < items@.len() ==> #[trigger] items_view(items@)[k] == item_view(items@[k]),
        decreases items@.len() - i,
    {
        assert(decreases_to!(items@ => items@[i as int]));
        let c = copy_item(&items[i]);
        proof {
            lemma_items_view_push(out@, c);
        }
        out.push(c);
        i += 1;
        assert(items_view(out@) =~= items_view(items@).subrange(0, i as int));
    }
    assert(items_view(items@).subrange(0, i as int) =~= items_view(items@));
    out
}

/// An owned copy of an item's kind, equal in every field.
fn copy_kind(kind: &ItemKind) -> (r: ItemKind)
    ensures
        item_view(Item { kind: r, span: None }) == item_view(Item { kind: *kind, span: None }),
    decreases kind, 3nat,
{
    match kind {
        ItemKind::Entry(e) => {
            let value = match &e.value {
                Value::Scalar(s) => Value::Scalar(copy_scalar(s)),
                Value::Container(c) => Value::Container(copy_container(c)),
            };
            ItemKind::Entry(Entry { key: e.key.clone(), op: e.op, value })
        },
        ItemKind::Scalar(s) => ItemKind::Scalar(copy_scalar(s)),
        ItemKind::Container(c) => ItemKind::Container(copy_container(c)),
        ItemKind::Param { name, negated, items } => ItemKind::Param {
            name: name.clone(),
            negated: *negated,
            items: copy_items(items.as_slice()),
        },
        ItemKind::ParamText { name, negated, text } => ItemKind::ParamText {
            name: name.clone(),
            negated: *negated,
            text: text.clone(),
        },
    }
}

/// An owned copy of an item, equal in every field.
fn copy_item(item: &Item) -> (r: Item)
    ensures
        item_view(r) == item_view(*item),
    decreases item, 0nat,
{
    let kind = copy_kind(&item.kind);
    Item { kind, span: item.span }
}

impl Clone for Item {
    /// A copy equal in every field.
    fn clone(&self) -> (r: Self)
        ensures
            item_view(r) == item_view(*self),
    {
        copy_item(self)
    }
}

impl Clone for ItemKind {
    /// A copy equal in every field.
    fn clone(&self) -> (r: Self)
        ensures
            item_view(Item { kind: r, span: None }) == item_view(Item { kind: *self, span: None }),
    {
        copy_kind(self)
    }
}

impl Clone for Container {
    /// A copy equal in every field.
    fn clone(&self) -> (r: Self)
        ensures
            container_view(r) == container_view(*self),
    {
        copy_container(self)
    }
}

impl Clone for Value {
    /// A copy equal in every field.
    fn clone(&self) -> (r: Self)
        ensures
            match (r, *self) {
                (Value::Scalar(a), Value::Scalar(b)) => a == b,
                (Value::Container(a), Value::Container(b)) => container_view(a) == container_view(b),
                _ => false,
            },
    {
        match self {
            Value::Scalar(s) => Value::Scalar(copy_scalar(s)),
            Value::Container(c) => Value::Container(copy_container(c)),
        }
    }
}

impl Clone for Entry {
    /// A copy equal in every field.
    fn clone(&self) -> (r: Self)
        ensures
            item_view(Item { kind: ItemKind::Entry(r), span: None }) == item_view(Item { kind: ItemKind::Entry(*self), span: None }),
    {
        let value = match &self.value {
            Value::Scalar(s) => Value::Scalar(copy_scalar(s)),
            Value::Container(c) => Value::Container(copy_container(c)),
        };
        Entry { key: self.key.clone(), op: self.op, value }
    }
}

impl Clone for Document {
    /// A copy equal in every field.
    fn clone(&self) -> (r: Self)
        ensures
            r@ == self@,
    {
        let mut diagnostics: Vec<Diagnostic> = Vec::new();
        let mut i: usize = 0;
        while i < self.diagnostics.len()
            invariant
                i <= self.diagnostics@.len(),
                diagnostics@.len() == i,
                forall|j: int| 0 <= j < i ==> (#[trigger] diagnostics@[j])@ == self.diagnostics@[j]@,
            decreases self.diagnostics@.len() - i,
        {
            let d = &self.diagnostics[i];
            diagnostics.push(Diagnostic { kind: d.kind, span: d.span, text: d.text.clone() });
            i += 1;
        }
        assert(diagnostics@.map_values(|d: Diagnostic| d@) =~= self.diagnostics@.map_values(|d: Diagnostic| d@));
        Document { file: self.file.clone(), items: copy_items(self.items.as_slice()), diagnostics }
    }
}

/// Returns owned children in order. Entry values are wrapped as items without source metadata.
pub fn item_children(item: &Item, regions: RegionPolicy<'_>) -> (r: Result<Vec<Item>, SyntaxError>)
    ensures
        match children_view(item_view(*item), regions) {
            Ok(v) => r matches Ok(x) && items_view(x@) == v,
            Err(e) => r matches Err(x) && x@ == e,
        },
{
    match &item.kind {
        ItemKind::Entry(entry) => {
            let kind = match &entry.value {
                Value::Scalar(s) => ItemKind::Scalar(copy_scalar(s)),
                Value::Container(c) => ItemKind::Container(copy_container(c)),
            };
            let child = Item::new(kind);
            let mut out: Vec<Item> = Vec::new();
            proof {
                lemma_items_view_push(out@, child);
                lemma_items_view(out@);
            }
            out.push(child);
            assert(items_view(out@) =~= seq![value_item(item_view(*item).kind->Entry_0.value)]);
            Ok(out)
        },
        ItemKind::Container(c) => Ok(copy_items(c.items.as_slice())),
        ItemKind::Param { items, .. } => Ok(copy_items(items.as_slice())),
        ItemKind::ParamText { text, .. } => match regions {
            RegionPolicy::Skip => {
                let out: Vec<Item> = Vec::new();
                proof {
                    lemma_items_view(out@);
                    reveal(region_children);
                }
                assert(items_view(out@) =~= Seq::<ItemView>::empty());
                Ok(out)
            },
            RegionPolicy::Read(file) => {
                proof {
                    reveal(region_children);
                }
                region_items(text.as_str(), file)
            },
        },
        ItemKind::Scalar(_) => {
            let out: Vec<Item> = Vec::new();
            proof {
                lemma_items_view(out@);
            }
            assert(items_view(out@) =~= Seq::<ItemView>::empty());
            Ok(out)
        },
    }
}

/// An upper bound on the number of visits a traversal makes below and at an item.
pub open spec fn item_weight(i: ItemView) -> nat
    decreases i,
{
    match i.kind {
        ItemKindView::Entry(e) => 1 + match e.value {
            ValueView::Scalar(_) => 1,
            ValueView::Container(c) => 1 + items_weight(c.items),
        },
        ItemKindView::Container(c) => 1 + items_weight(c.items),
        ItemKindView::Param { items, .. } => 1 + items_weight(items),
        ItemKindView::ParamText { text, .. } => 1 + 3 * text.len(),
        ItemKindView::Scalar(_) => 1,
    }
}

pub open spec fn items_weight(s: Seq<ItemView>) -> nat
    decreases s,
{
    if s.len() == 0 {
        0
    } else {
        item_weight(s[0]) + items_weight(s.subrange(1, s.len() as int))
    }
}

proof fn lemma_weight_prepend(x: ItemView, s: Seq<ItemView>)
    ensures
        items_weight(seq![x] + s) == item_weight(x) + items_weight(s),
{
    assert((seq![x] + s).subrange(1, s.len() as int + 1) =~= s);
}

proof fn lemma_flat_weight(ts: Seq<TokenView>)
    ensures
        items_weight(flat_items(ts)) <= tokens_weight(ts),
    decreases ts.len(),
{
    if ts.len() > 0 {
        lemma_flat_weight(ts.drop_first());
        let rest = flat_items(ts.drop_first());
        let t = ts[0];
        if t.kind == Kind::Word || t.kind == Kind::Math {
            lemma_weight_prepend(flat_items(ts)[0], rest);
            assert(flat_items(ts) == seq![flat_items(ts)[0]] + rest);
        } else if t.kind == Kind::Region {
            lemma_weight_prepend(region_text_item(t), rest);
        }
    }
}

/// Children weigh less than their parent.
pub proof fn lemma_children_weight(i: ItemView, regions: RegionPolicy)
    ensures
        children_view(i, regions) matches Ok(ch) ==> items_weight(ch) < item_weight(i),
{
    match i.kind {
        ItemKindView::Entry(e) => {
            lemma_weight_prepend(value_item(e.value), Seq::empty());
            assert(seq![value_item(e.value)] + Seq::<ItemView>::empty() =~= seq![value_item(e.value)]);
        },
        ItemKindView::ParamText { text, .. } => {
            reveal(region_children);
            if let RegionPolicy::Read(file) = regions {
                lemma_lex_weight(text, 0, file.spec_bytes(), 0, 1);
                if let Ok(ts) = lex(text, 0, file.spec_bytes(), 1) {
                    lemma_flat_weight(ts);
                }
            }
        },
        _ => {},
    }
}

/// Pending traversal work: items with the step whose context they receive (`None`: the initial context).
pub open spec fn tagged(ch: Seq<ItemView>, tag: Option<nat>) -> Seq<(ItemView, Option<nat>)> {
    Seq::new(ch.len(), |j: int| (ch[ch.len() - 1 - j], tag))
}

/// The pending work after the visitor has returned the decisions `ds`, top of the stack last.
#[verifier::opaque]
pub open spec fn walk_after<C>(start: Seq<(ItemView, Option<nat>)>, ds: Seq<WalkControl<C>>, regions: RegionPolicy) -> Option<Seq<(ItemView, Option<nat>)>>
    decreases ds.len(),
{
    if ds.len() == 0 {
        Some(start)
    } else {
        match walk_after(start, ds.drop_last(), regions) {
            Some(p) => if p.len() == 0 {
                None
            } else {
                match ds.last() {
                    WalkControl::Skip => Some(p.drop_last()),
                    WalkControl::Continue(_) => match children_view(p.last().0, regions) {
                        Ok(ch) => Some(p.drop_last() + tagged(ch, Some((ds.len() - 1) as nat))),
                        Err(_) => None,
                    },
                    WalkControl::Stop => None,
                }
            },
            None => None,
        }
    }
}

/// How a traversal that received the decisions `ds` ends: `Ok(true)` when stopped, `Ok(false)` when
/// every item was handled, or the error of a region body; `None` when `ds` is not a whole traversal.
pub open spec fn walk_result<C>(start: Seq<(ItemView, Option<nat>)>, ds: Seq<WalkControl<C>>, regions: RegionPolicy) -> Option<Result<bool, ErrorView>> {
    if walk_after(start, ds, regions) == Some(Seq::<(ItemView, Option<nat>)>::empty()) {
        Some(Ok(false))
    } else if ds.len() > 0 {
        match walk_after(start, ds.drop_last(), regions) {
            Some(p) => if p.len() == 0 {
                None
            } else {
                match ds.last() {
                    WalkControl::Stop => Some(Ok(true)),
                    WalkControl::Continue(_) => match children_view(p.last().0, regions) {
                        Err(e) => Some(Err(e)),
                        Ok(_) => None,
                    },
                    WalkControl::Skip => None,
                }
            },
            None => None,
        }
    } else {
        None
    }
}

/// Whether `c` is what an item with `tag` receives as context.
pub open spec fn context_of<C: Clone>(context: C, ds: Seq<WalkControl<C>>, tag: Option<nat>, c: C) -> bool {
    match tag {
        None => cloned(context, c),
        Some(q) => q < ds.len() && (ds[q as int] matches WalkControl::Continue(parent) && cloned(parent, c)),
    }
}

/// The `k`-th visit: the item on top of the pending work, with its context, answered by `ds[k]`.
#[verifier::opaque]
pub open spec fn visit_ok<C: Clone, F: FnMut(&Item, &C) -> WalkControl<C>>(
    visit: F,
    context: C,
    start: Seq<(ItemView, Option<nat>)>,
    ds: Seq<WalkControl<C>>,
    args: Seq<(Item, C)>,
    regions: RegionPolicy,
    k: int,
) -> bool {
    match walk_after(start, ds.subrange(0, k), regions) {
        Some(p) => p.len() > 0 && item_view(args[k].0) == p.last().0 && context_of(context, ds, p.last().1, args[k].1)
            && call_ensures(visit, (&args[k].0, &args[k].1), ds[k]),
        None => false,
    }
}

/// A pre-order traversal of `items` in which the visitor returned `ds` on the arguments `args`,
/// ending with `result`.
pub open spec fn walked<C: Clone, F: FnMut(&Item, &C) -> WalkControl<C>>(
    visit: F,
    context: C,
    items: Seq<ItemView>,
    regions: RegionPolicy,
    ds: Seq<WalkControl<C>>,
    args: Seq<(Item, C)>,
    result: Result<bool, ErrorView>,
) -> bool {
    &&& args.len() == ds.len()
    &&& walk_result(tagged(items, None), ds, regions) == Some(result)
    &&& forall|k: int| 0 <= k < ds.len() ==> #[trigger] visit_ok(visit, context, tagged(items, None), ds, args, regions, k)
}

pub open spec fn result_view(r: Result<bool, SyntaxError>) -> Result<bool, ErrorView> {
    match r {
        Ok(b) => Ok(b),
        Err(e) => Err(e@),
    }
}

spec fn pending_weight<C>(s: Seq<(Item, C)>) -> nat
    decreases s.len(),
{
    if s.len() == 0 {
        0
    } else {
        item_weight(item_view(s.last().0)) + pending_weight(s.drop_last())
    }
}

proof fn lemma_pending_push<C>(s: Seq<(Item, C)>, x: (Item, C))
    ensures
        pending_weight(s.push(x)) == pending_weight(s) + item_weight(item_view(x.0)),
{
    assert(s.push(x).drop_last() =~= s);
}

/// The pending work after one more decision.
proof fn lemma_walk_step<C>(start: Seq<(ItemView, Option<nat>)>, ds: Seq<WalkControl<C>>, d: WalkControl<C>, sp: Seq<(ItemView, Option<nat>)>, regions: RegionPolicy)
    requires
        walk_after(start, ds, regions) == Some(sp),
        sp.len() > 0,
    ensures
        walk_after(start, ds.push(d), regions) == match d {
            WalkControl::Skip => Some(sp.drop_last()),
            WalkControl::Continue(_) => match children_view(sp.last().0, regions) {
                Ok(ch) => Some(sp.drop_last() + tagged(ch, Some(ds.len()))),
                Err(_) => None,
            },
            WalkControl::Stop => None,
        },
        d is Stop ==> walk_result(start, ds.push(d), regions) == Some(Ok::<bool, ErrorView>(true)),
        d is Continue ==> (children_view(sp.last().0, regions) matches Err(e)
            ==> walk_result(start, ds.push(d), regions) == Some(Err::<bool, ErrorView>(e))),
{
    reveal(walk_after);
    assert(ds.push(d).drop_last() =~= ds);
}

proof fn lemma_walk_start<C>(start: Seq<(ItemView, Option<nat>)>, regions: RegionPolicy)
    ensures
        walk_after(start, Seq::<WalkControl<C>>::empty(), regions) == Some(start),
{
    reveal(walk_after);
}

/// Earlier visits keep their meaning when the traversal goes on, and the newest visit is recorded.
proof fn lemma_visits_extend<C: Clone, F: FnMut(&Item, &C) -> WalkControl<C>>(
    visit: F,
    context: C,
    start: Seq<(ItemView, Option<nat>)>,
    ds: Seq<WalkControl<C>>,
    args: Seq<(Item, C)>,
    regions: RegionPolicy,
    sp: Seq<(ItemView, Option<nat>)>,
    d: WalkControl<C>,
    a: (Item, C),
)
    requires
        args.len() == ds.len(),
        forall|k: int| 0 <= k < ds.len() ==> #[trigger] visit_ok(visit, context, start, ds, args, regions, k),
        walk_after(start, ds, regions) == Some(sp),
        sp.len() > 0,
        item_view(a.0) == sp.last().0,
        context_of(context, ds, sp.last().1, a.1),
        call_ensures(visit, (&a.0, &a.1), d),
    ensures
        forall|k: int| 0 <= k < ds.len() + 1 ==> #[trigger] visit_ok(visit, context, start, ds.push(d), args.push(a), regions, k),
{
    reveal(visit_ok);
    let nds = ds.push(d);
    let nargs = args.push(a);
    assert forall|k: int| 0 <= k < ds.len() + 1 implies #[trigger] visit_ok(visit, context, start, nds, nargs, regions, k) by {
        if k < ds.len() {
            assert(visit_ok(visit, context, start, ds, args, regions, k));
            assert(nds.subrange(0, k) =~= ds.subrange(0, k));
            assert(nds[k] == ds[k]);
            assert(nargs[k] == args[k]);
            let p = walk_after(start, ds.subrange(0, k), regions).unwrap();
            lemma_context_extend(context, ds, d, p.last().1, args[k].1);
        } else {
            assert(nds.subrange(0, k) =~= ds);
            lemma_context_extend(context, ds, d, sp.last().1, a.1);
        }
    }
}

/// Items in reverse order, each with a clone of `context`.
fn initial_pending<C: Clone>(items: &[Item], context: &C) -> (r: Vec<(Item, C)>)
    ensures
        r@.len() == items@.len(),
        forall|j: int| 0 <= j < r@.len() ==> item_view((#[trigger] r@[j]).0) == items_view(items@)[items@.len() - 1 - j]
            && cloned(*context, r@[j].1),
{
    let ghost v = items_view(items@);
    proof {
        lemma_items_view(items@);
    }
    let n = items.len();
    let mut pending: Vec<(Item, C)> = Vec::new();
    let mut i = n;
    while i > 0
        invariant
            i <= n,
            n == items@.len(),
            v == items_view(items@),
            v.len() == n,
            forall|k: int| 0 <= k < n ==> #[trigger] v[k] == item_view(items@[k]),
            pending@.len() == n - i,
            forall|j: int| 0 <= j < n - i ==> item_view((#[trigger] pending@[j]).0) == v[n - 1 - j] && cloned(*context, pending@[j].1),
        decreases i,
    {
        i -= 1;
        let c = copy_item(&items[i]);
        let x = context.clone();
        pending.push((c, x));
    }
    pending
}

/// Pushes the children of `item` in reverse order, each with a clone of `c`.
#[verifier::rlimit(60)]
#[verifier::spinoff_prover]
fn expand<C: Clone>(pending: &mut Vec<(Item, C)>, item: &Item, c: &C, regions: RegionPolicy) -> (r: Result<(), SyntaxError>)
    ensures
        r is Ok ==> (children_view(item_view(*item), regions) matches Ok(chv) && {
            &&& final(pending)@.len() == old(pending)@.len() + chv.len()
            &&& final(pending)@.subrange(0, old(pending)@.len() as int) == old(pending)@
            &&& forall|m: int| 0 <= m < chv.len() ==> item_view((#[trigger] final(pending)@[old(pending)@.len() + m]).0)
                == chv[chv.len() - 1 - m] && cloned(*c, final(pending)@[old(pending)@.len() + m].1)
            &&& pending_weight(final(pending)@) == pending_weight(old(pending)@) + items_weight(chv)
        }),
        r matches Err(x) ==> children_view(item_view(*item), regions) == Err::<Seq<ItemView>, ErrorView>(x@),
{
    let children = match item_children(item, regions) {
        Ok(ch) => ch,
        Err(e) => return Err(e),
    };
    let ghost chv = items_view(children@);
    proof {
        lemma_items_view(children@);
    }
    assert(children_view(item_view(*item), regions) == Ok::<Seq<ItemView>, ErrorView>(chv));
    push_children(pending, children.as_slice(), c);
    Ok(())
}

/// Pushes copies of `children` in reverse order, each with a clone of `c`.
fn push_children<C: Clone>(pending: &mut Vec<(Item, C)>, children: &[Item], c: &C)
    ensures
        final(pending)@.len() == old(pending)@.len() + children@.len(),
        final(pending)@.subrange(0, old(pending)@.len() as int) == old(pending)@,
        forall|m: int| 0 <= m < children@.len() ==> item_view((#[trigger] final(pending)@[old(pending)@.len() + m]).0)
            == items_view(children@)[children@.len() - 1 - m] && cloned(*c, final(pending)@[old(pending)@.len() + m].1),
        pending_weight(final(pending)@) == pending_weight(old(pending)@) + items_weight(items_view(children@)),
{
    let ghost rest = pending@;
    let ghost chv = items_view(children@);
    proof {
        lemma_items_view(children@);
    }
    let len = children.len();
    let mut j = len;
    proof {
        assert(chv.subrange(len as int, len as int) =~= Seq::<ItemView>::empty());
        assert(pending@.subrange(0, rest.len() as int) =~= rest);
    }
    while j > 0
        invariant
            j <= len,
            len == children@.len(),
            chv == items_view(children@),
            chv.len() == len,
            forall|k: int| 0 <= k < len ==> #[trigger] chv[k] == item_view(children@[k]),
            pending@.len() == rest.len() + (len - j),
            pending@.subrange(0, rest.len() as int) == rest,
            forall|m: int| 0 <= m < len - j ==> item_view((#[trigger] pending@[rest.len() + m]).0) == chv[len - 1 - m]
                && cloned(*c, pending@[rest.len() + m].1),
            pending_weight(pending@) == pending_weight(rest) + items_weight(chv.subrange(j as int, len as int)),
        decreases j,
    {
        let ghost pre = pending@;
        j -= 1;
        let child = copy_item(&children[j]);
        let x = c.clone();
        pending.push((child, x));
        proof {
            lemma_pending_push(pre, (child, x));
            lemma_items_weight_front(chv, j as int);
            assert(pending@.subrange(0, rest.len() as int) =~= rest);
            assert forall|m: int| 0 <= m < len - j implies item_view((#[trigger] pending@[rest.len() + m]).0) == chv[len - 1 - m]
                && cloned(*c, pending@[rest.len() + m].1) by {
                if m < len - j - 1 {
                    assert(pending@[rest.len() + m] == pre[rest.len() + m]);
                }
            }
        }
    }
    proof {
        assert(chv.subrange(0, len as int) =~= chv);
    }
}

/// Whether `sp` describes the pending pairs `pending`.
#[verifier::opaque]
pub open spec fn pending_ok<C: Clone>(context: C, ds: Seq<WalkControl<C>>, sp: Seq<(ItemView, Option<nat>)>, pending: Seq<(Item, C)>) -> bool {
    &&& sp.len() == pending.len()
    &&& forall|j: int| 0 <= j < sp.len() ==> (#[trigger] sp[j]).0 == item_view(pending[j].0)
        && context_of(context, ds, sp[j].1, pending[j].1)
}

proof fn lemma_pending_top<C: Clone>(context: C, ds: Seq<WalkControl<C>>, sp: Seq<(ItemView, Option<nat>)>, pending: Seq<(Item, C)>)
    requires
        pending_ok(context, ds, sp, pending),
    ensures
        sp.len() == pending.len(),
        sp.len() > 0 ==> sp.last().0 == item_view(pending.last().0) && context_of(context, ds, sp.last().1, pending.last().1),
{
    reveal(pending_ok);
}

proof fn lemma_pending_skip<C: Clone>(context: C, ds: Seq<WalkControl<C>>, d: WalkControl<C>, sp: Seq<(ItemView, Option<nat>)>, pending: Seq<(Item, C)>)
    requires
        pending_ok(context, ds, sp, pending),
        sp.len() > 0,
    ensures
        pending_ok(context, ds.push(d), sp.drop_last(), pending.drop_last()),
{
    reveal(pending_ok);
    assert forall|j: int| 0 <= j < sp.len() - 1 implies (#[trigger] sp.drop_last()[j]).0 == item_view(pending.drop_last()[j].0)
        && context_of(context, ds.push(d), sp.drop_last()[j].1, pending.drop_last()[j].1) by {
        assert(sp.drop_last()[j] == sp[j]);
        assert(pending.drop_last()[j] == pending[j]);
        lemma_context_extend(context, ds, d, sp[j].1, pending[j].1);
    }
}

proof fn lemma_pending_children<C: Clone>(
    context: C,
    ds: Seq<WalkControl<C>>,
    c: C,
    sp: Seq<(ItemView, Option<nat>)>,
    before: Seq<(Item, C)>,
    chv: Seq<ItemView>,
    after: Seq<(Item, C)>,
)
    requires
        pending_ok(context, ds, sp, before),
        sp.len() > 0,
        after.len() == before.len() - 1 + chv.len(),
        after.subrange(0, before.len() - 1) == before.drop_last(),
        forall|m: int| 0 <= m < chv.len() ==> item_view((#[trigger] after[before.len() - 1 + m]).0)
            == chv[chv.len() - 1 - m] && cloned(c, after[before.len() - 1 + m].1),
    ensures
        pending_ok(context, ds.push(WalkControl::Continue(c)), sp.drop_last() + tagged(chv, Some(ds.len())), after),
{
    reveal(pending_ok);
    let nds = ds.push(WalkControl::Continue(c));
    let nsp = sp.drop_last() + tagged(chv, Some(ds.len()));
    let r = before.len() - 1;
    assert forall|j: int| 0 <= j < nsp.len() implies (#[trigger] nsp[j]).0 == item_view(after[j].0)
        && context_of(context, nds, nsp[j].1, after[j].1) by {
        if j < r {
            assert(nsp[j] == sp[j]);
            assert(after[j] == after.subrange(0, r)[j]);
            assert(after[j] == before[j]);
            lemma_context_extend(context, ds, WalkControl::Continue(c), sp[j].1, before[j].1);
        } else {
            let m = j - r;
            assert(after[r + m] == after[j]);
            assert(nds[ds.len() as int] == WalkControl::Continue(c));
        }
    }
}

/// Pre-order traversal with child context, subtree skipping, and early termination. Returns whether stopped.
#[verifier::rlimit(100)]
#[verifier::spinoff_prover]
pub fn walk_items<C: Clone, F: FnMut(&Item, &C) -> WalkControl<C>>(
    items: &[Item],
    context: C,
    visit: F,
    regions: RegionPolicy<'_>,
) -> (r: Result<bool, SyntaxError>)
    requires
        forall|i: &Item, c: &C| call_requires(visit, (i, c)),
    ensures
        exists|ds: Seq<WalkControl<C>>, args: Seq<(Item, C)>|
            #[trigger] walked(visit, context, items_view(items@), regions, ds, args, result_view(r)),
{
    let ghost start = tagged(items_view(items@), None);
    let mut pending = initial_pending(items, &context);
    let mut f = visit;
    let ghost mut ds: Seq<WalkControl<C>> = Seq::empty();
    let ghost mut args: Seq<(Item, C)> = Seq::empty();
    let ghost mut sp: Seq<(ItemView, Option<nat>)> = start;
    proof {
        lemma_items_view(items@);
        lemma_walk_start::<C>(start, regions);
        assert forall|j: int| 0 <= j < sp.len() implies (#[trigger] sp[j]).0 == item_view(pending@[j].0)
            && context_of(context, ds, sp[j].1, pending@[j].1) by {
            assert(sp[j] == (items_view(items@)[items@.len() - 1 - j], None::<nat>));
        }
        reveal(pending_ok);
    }
    while pending.len() > 0
        invariant
            start == tagged(items_view(items@), None),
            forall|i: &Item, c: &C| call_requires(visit, (i, c)),
            f == visit,
            walk_after(start, ds, regions) == Some(sp),
            pending_ok(context, ds, sp, pending@),
            args.len() == ds.len(),
            forall|k: int| 0 <= k < ds.len() ==> #[trigger] visit_ok(visit, context, start, ds, args, regions, k),
        decreases pending_weight(pending@),
    {
        let ghost before = pending@;
        let (item, ctx) = pending.pop().unwrap();
        proof {
            lemma_pending_top(context, ds, sp, before);
            assert(pending@ == before.drop_last());
            assert(before.last() == (item, ctx));
            lemma_pending_push(pending@, (item, ctx));
            assert(pending@.push((item, ctx)) =~= before);
        }
        let control = f(&item, &ctx);
        let ghost d = control;
        let ghost old_ds = ds;
        let ghost old_sp = sp;
        proof {
            lemma_visits_extend(visit, context, start, ds, args, regions, sp, d, (item, ctx));
            lemma_walk_step(start, ds, d, sp, regions);
            ds = old_ds.push(d);
            args = args.push((item, ctx));
        }
        match control {
            WalkControl::Stop => {
                proof {
                    assert(walked(visit, context, items_view(items@), regions, ds, args, Ok(true)));
                }
                return Ok(true);
            },
            WalkControl::Skip => {
                proof {
                    lemma_pending_skip(context, old_ds, d, old_sp, before);
                    sp = old_sp.drop_last();
                }
            },
            WalkControl::Continue(c) => {
                proof {
                    lemma_children_weight(item_view(item), regions);
                }
                let ghost mid = pending@;
                match expand(&mut pending, &item, &c, regions) {
                    Ok(()) => {},
                    Err(e) => {
                        proof {
                            assert(walked(visit, context, items_view(items@), regions, ds, args, Err(e@)));
                        }
                        return Err(e);
                    },
                }
                proof {
                    let chv = children_view(item_view(item), regions)->Ok_0;
                    lemma_pending_children(context, old_ds, c, old_sp, before, chv, pending@);
                    sp = old_sp.drop_last() + tagged(chv, Some(old_ds.len()));
                }
            },
        }
    }
    proof {
        reveal(pending_ok);
        assert(sp =~= Seq::<(ItemView, Option<nat>)>::empty());
        assert(walked(visit, context, items_view(items@), regions, ds, args, Ok(false)));
    }
    Ok(false)
}

proof fn lemma_context_extend<C: Clone>(context: C, ds: Seq<WalkControl<C>>, d: WalkControl<C>, tag: Option<nat>, c: C)
    requires
        context_of(context, ds, tag, c),
    ensures
        context_of(context, ds.push(d), tag, c),
{
    if let Some(q) = tag {
        assert(ds.push(d)[q as int] == ds[q as int]);
    }
}

proof fn lemma_items_weight_front(s: Seq<ItemView>, j: int)
    requires
        0 <= j < s.len(),
    ensures
        items_weight(s.subrange(j, s.len() as int)) == item_weight(s[j]) + items_weight(s.subrange(j + 1, s.len() as int)),
{
    let t = s.subrange(j, s.len() as int);
    assert(t.subrange(1, t.len() as int) =~= s.subrange(j + 1, s.len() as int));
}

/// A body with every source location removed.
pub open spec fn strip_container(c: ContainerView) -> ContainerView
    decreases c,
{
    ContainerView { header: c.header, items: strip_items(c.items) }
}

/// Items with every source location removed, at every depth.
pub open spec fn strip_items(s: Seq<ItemView>) -> Seq<ItemView>
    decreases s,
{
    if s.len() == 0 {
        Seq::empty()
    } else {
        seq![strip_item(s[0])] + strip_items(s.subrange(1, s.len() as int))
    }
}

/// An item with every source location removed, at every depth.
pub open spec fn strip_item(i: ItemView) -> ItemView
    decreases i,
{
    ItemView {
        kind: match i.kind {
            ItemKindView::Entry(e) => ItemKindView::Entry(EntryView {
                key: e.key,
                op: e.op,
                value: match e.value {
                    ValueView::Scalar(v) => ValueView::Scalar(v),
                    ValueView::Container(c) => ValueView::Container(strip_container(c)),
                },
            }),
            ItemKindView::Scalar(v) => ItemKindView::Scalar(v),
            ItemKindView::Container(c) => ItemKindView::Container(strip_container(c)),
            ItemKindView::Param { name, negated, items } => ItemKindView::Param { name, negated, items: strip_items(items) },
            ItemKindView::ParamText { name, negated, text } => ItemKindView::ParamText { name, negated, text },
        },
        span: None,
    }
}

pub proof fn lemma_strip_items(s: Seq<ItemView>)
    ensures
        strip_items(s).len() == s.len(),
        forall|j: int| 0 <= j < s.len() ==> #[trigger] strip_items(s)[j] == strip_item(s[j]),
    decreases s.len(),
{
    if s.len() > 0 {
        lemma_strip_items(s.subrange(1, s.len() as int));
        assert forall|j: int| 0 <= j < s.len() implies #[trigger] strip_items(s)[j] == strip_item(s[j]) by {
            if j > 0 {
                assert(s.subrange(1, s.len() as int)[j - 1] == s[j]);
            }
        }
    }
}

fn strip_container_copy(c: &Container) -> (r: Container)
    ensures
        container_view(r) == strip_container(container_view(*c)),
    decreases c, 2nat,
{
    let header = match &c.header {
        Some(h) => Some(h.clone()),
        None => None,
    };
    let items = strip_copy_items(c.items.as_slice());
    Container { header, items }
}

fn strip_copy_items(items: &[Item]) -> (r: Vec<Item>)
    ensures
        items_view(r@) == strip_items(items_view(items@)),
    decreases items@, 1nat,
{
    let mut out: Vec<Item> = Vec::new();
    let mut i: usize = 0;
    proof {
        lemma_items_view(items@);
        lemma_items_view(out@);
        lemma_strip_items(items_view(items@));
    }
    while i < items.len()
        invariant
            i <= items@.len(),
            items_view(out@) == strip_items(items_view(items@)).subrange(0, i as int),
            items_view(items@).len() == items@.len(),
            strip_items(items_view(items@)).len() == items@.len(),
            forall|k: int| 0 <= k < items@.len() ==> #[trigger] items_view(items@)[k] == item_view(items@[k]),
            forall|k: int| 0 <= k < items@.len() ==> #[trigger] strip_items(items_view(items@))[k] == strip_item(items_view(items@)[k]),
        decreases items@.len() - i,
    {
        assert(decreases_to!(items@ => items@[i as int]));
        let c = strip_copy_item(&items[i]);
        proof {
            lemma_items_view_push(out@, c);
        }
        out.push(c);
        i += 1;
        assert(items_view(out@) =~= strip_items(items_view(items@)).subrange(0, i as int));
    }
    assert(strip_items(items_view(items@)).subrange(0, i as int) =~= strip_items(items_view(items@)));
    out
}

fn strip_copy_item(item: &Item) -> (r: Item)
    ensures
        item_view(r) == strip_item(item_view(*item)),
    decreases item, 0nat,
{
    let kind = match &item.kind {
        ItemKind::Entry(e) => {
            let value = match &e.value {
                Value::Scalar(s) => Value::Scalar(copy_scalar(s)),
                Value::Container(c) => Value::Container(strip_container_copy(c)),
            };
            ItemKind::Entry(Entry { key: e.key.clone(), op: e.op, value })
        },
        ItemKind::Scalar(s) => ItemKind::Scalar(copy_scalar(s)),
        ItemKind::Container(c) => ItemKind::Container(strip_container_copy(c)),
        ItemKind::Param { name, negated, items } => ItemKind::Param {
            name: name.clone(),
            negated: *negated,
            items: strip_copy_items(items.as_slice()),
        },
        ItemKind::ParamText { name, negated, text } => ItemKind::ParamText {
            name: name.clone(),
            negated: *negated,
            text: text.clone(),
        },
    };
    Item { kind, span: None }
}

/// Copies a tree with all source locations removed for semantic comparison.
pub fn without_spans(items: &[Item]) -> (r: Vec<Item>)
    ensures
        items_view(r@) == strip_items(items_view(items@)),
{
    strip_copy_items(items)
}

/// Removing locations a second time changes nothing.
pub proof fn law_strip_idempotent(s: Seq<ItemView>)
    ensures
        strip_items(strip_items(s)) == strip_items(s),
    decreases s,
{
    lemma_strip_items(s);
    lemma_strip_items(strip_items(s));
    assert forall|j: int| 0 <= j < s.len() implies strip_items(strip_items(s))[j] == strip_items(s)[j] by {
        assert(decreases_to!(s => s[j]));
        lemma_strip_item_idempotent(s[j]);
    }
    assert(strip_items(strip_items(s)) =~= strip_items(s));
}

proof fn lemma_strip_item_idempotent(i: ItemView)
    ensures
        strip_item(strip_item(i)) == strip_item(i),
    decreases i,
{
    match i.kind {
        ItemKindView::Entry(e) => {
            if let ValueView::Container(c) = e.value {
                law_strip_idempotent(c.items);
            }
        },
        ItemKindView::Container(c) => {
            law_strip_idempotent(c.items);
        },
        ItemKindView::Param { items, .. } => {
            law_strip_idempotent(items);
        },
        _ => {},
    }
}

/// With `RegionPolicy::Skip`, children are always available and traversal never fails: a
/// traversal ends stopped or complete.
pub proof fn law_skip_policy_never_fails<C>(start: Seq<(ItemView, Option<nat>)>, ds: Seq<WalkControl<C>>, i: ItemView)
    ensures
        children_view(i, RegionPolicy::Skip) is Ok,
        !(walk_result(start, ds, RegionPolicy::Skip) matches Some(Err(_))),
{
    reveal(region_children);
    if ds.len() > 0 {
        if let Some(p) = walk_after(start, ds.drop_last(), RegionPolicy::Skip) {
            if p.len() > 0 {
                reveal(region_children);
                assert(children_view(p.last().0, RegionPolicy::Skip) is Ok);
            }
        }
    }
}


/// The items of `s` in pre-order: each item, then its children in pre-order, then the items after it.
pub open spec fn preorder(s: Seq<ItemView>, regions: RegionPolicy) -> Seq<ItemView>
    decreases items_weight(s),
{
    if s.len() == 0 {
        Seq::empty()
    } else {
        let ch = match children_view(s[0], regions) {
            Ok(ch) => ch,
            Err(_) => Seq::empty(),
        };
        proof {
            lemma_children_weight(s[0], regions);
            lemma_item_weight_pos(s[0]);
        }
        seq![s[0]] + preorder(ch, regions) + preorder(s.subrange(1, s.len() as int), regions)
    }
}

pub proof fn lemma_item_weight_pos(i: ItemView)
    ensures
        item_weight(i) >= 1,
{
}

/// The items a pending stack still holds, in the order they will be visited.
pub open spec fn pending_order(st: Seq<(ItemView, Option<nat>)>, regions: RegionPolicy) -> Seq<ItemView>
    decreases st.len(),
{
    if st.len() == 0 {
        Seq::empty()
    } else {
        preorder(seq![st.last().0], regions) + pending_order(st.drop_last(), regions)
    }
}

proof fn lemma_preorder_one(s: Seq<ItemView>, regions: RegionPolicy)
    requires
        s.len() > 0,
    ensures
        preorder(s, regions) == preorder(seq![s[0]], regions) + preorder(s.subrange(1, s.len() as int), regions),
        preorder(seq![s[0]], regions).len() > 0,
        preorder(seq![s[0]], regions)[0] == s[0],
{
    let one = seq![s[0]];
    assert(one.subrange(1, 1) =~= Seq::<ItemView>::empty());
    assert(preorder(one.subrange(1, 1), regions) == Seq::<ItemView>::empty());
    let ch = match children_view(s[0], regions) {
        Ok(ch) => ch,
        Err(_) => Seq::empty(),
    };
    assert(preorder(one, regions) == seq![s[0]] + preorder(ch, regions) + Seq::<ItemView>::empty());
    assert(preorder(one, regions) =~= seq![s[0]] + preorder(ch, regions));
    assert(preorder(s, regions) =~= preorder(one, regions) + preorder(s.subrange(1, s.len() as int), regions));
}

/// Pushing children on a stack puts their pre-order before what the stack held.
proof fn lemma_pending_tagged(a: Seq<(ItemView, Option<nat>)>, ch: Seq<ItemView>, t: Option<nat>, regions: RegionPolicy)
    ensures
        pending_order(a + tagged(ch, t), regions) == preorder(ch, regions) + pending_order(a, regions),
    decreases ch.len(),
{
    if ch.len() == 0 {
        assert(a + tagged(ch, t) =~= a);
        assert(preorder(ch, regions) + pending_order(a, regions) =~= pending_order(a, regions));
    } else {
        let st = a + tagged(ch, t);
        let rest = ch.subrange(1, ch.len() as int);
        assert(st.last() == (ch[0], t));
        assert(st.drop_last() =~= a + tagged(rest, t));
        lemma_pending_tagged(a, rest, t, regions);
        lemma_preorder_one(ch, regions);
        assert(pending_order(st, regions) == preorder(seq![ch[0]], regions) + pending_order(st.drop_last(), regions));
        assert(pending_order(st, regions) =~= preorder(ch, regions) + pending_order(a, regions));
    }
}

proof fn lemma_walk_prefix<C>(start: Seq<(ItemView, Option<nat>)>, ds: Seq<WalkControl<C>>, regions: RegionPolicy, k: int)
    requires
        walk_after(start, ds, regions) is Some,
        0 <= k <= ds.len(),
    ensures
        walk_after(start, ds.subrange(0, k), regions) is Some,
        k < ds.len() ==> walk_after(start, ds.subrange(0, k), regions)->Some_0.len() > 0,
    decreases ds.len(),
{
    reveal(walk_after);
    if ds.len() > 0 {
        lemma_walk_prefix(start, ds.drop_last(), regions, if k == ds.len() { k - 1 } else { k });
        if k < ds.len() {
            assert(ds.drop_last().subrange(0, k) =~= ds.subrange(0, k));
            if k == ds.len() - 1 {
                assert(ds.drop_last() =~= ds.subrange(0, k));
            }
        } else {
            assert(ds.subrange(0, k) =~= ds);
        }
    }
}

/// From step `k` on, a traversal that continues at every item visits what the pending stack holds, in order.
proof fn lemma_walk_order<C>(start: Seq<(ItemView, Option<nat>)>, ds: Seq<WalkControl<C>>, regions: RegionPolicy, all: Seq<ItemView>, k: int)
    requires
        0 <= k <= ds.len(),
        walk_after(start, ds, regions) == Some(Seq::<(ItemView, Option<nat>)>::empty()),
        forall|j: int| 0 <= j < ds.len() ==> #[trigger] ds[j] is Continue,
        walk_after(start, ds.subrange(0, k), regions) matches Some(p) && pending_order(p, regions) == all.skip(k),
        k <= all.len(),
    ensures
        ds.len() == all.len(),
        forall|j: int| k <= j < ds.len() ==> (walk_after(start, #[trigger] ds.subrange(0, j), regions) matches Some(p)
            && p.len() > 0 && p.last().0 == all[j]),
    decreases ds.len() - k,
{
    if k == ds.len() {
        assert(ds.subrange(0, k) =~= ds);
        assert(all.skip(k).len() == 0);
    } else {
        lemma_walk_prefix(start, ds, regions, k);
        lemma_walk_prefix(start, ds, regions, k + 1);
        let p = walk_after(start, ds.subrange(0, k), regions)->Some_0;
        let top = p.last().0;
        let ch = children_view(top, regions);
        assert(ds.subrange(0, k + 1).drop_last() =~= ds.subrange(0, k));
        assert(ds.subrange(0, k + 1).last() == ds[k]);
        assert(ds[k] is Continue);
        reveal(walk_after);
        assert(ch is Ok);
        let q = walk_after(start, ds.subrange(0, k + 1), regions)->Some_0;
        assert(q == p.drop_last() + tagged(ch->Ok_0, Some(k as nat)));
        lemma_pending_tagged(p.drop_last(), ch->Ok_0, Some(k as nat), regions);
        assert(pending_order(p, regions) == preorder(seq![top], regions) + pending_order(p.drop_last(), regions));
        let ones = preorder(seq![top], regions);
        assert(seq![top][0] == top);
        assert(seq![top].subrange(1, 1) =~= Seq::<ItemView>::empty());
        assert(ones == seq![top] + preorder(ch->Ok_0, regions) + preorder(seq![top].subrange(1, 1), regions));
        assert(preorder(Seq::<ItemView>::empty(), regions) == Seq::<ItemView>::empty());
        assert(ones =~= seq![top] + preorder(ch->Ok_0, regions));
        assert(pending_order(q, regions) =~= pending_order(p, regions).drop_first());
        assert(all.skip(k).len() > 0);
        assert(all[k] == all.skip(k)[0]);
        assert(all.skip(k).drop_first() =~= all.skip(k + 1));
        lemma_walk_order(start, ds, regions, all, k + 1);
    }
}

/// When the visitor continues at every item, a traversal that completes visits the items in
/// pre-order: each item, then its children, then the items after it, and nothing else.
pub proof fn law_walk_preorder<C>(items: Seq<ItemView>, regions: RegionPolicy, ds: Seq<WalkControl<C>>)
    requires
        forall|k: int| 0 <= k < ds.len() ==> #[trigger] ds[k] is Continue,
        walk_result(tagged(items, None), ds, regions) == Some(Ok::<bool, ErrorView>(false)),
    ensures
        ds.len() == preorder(items, regions).len(),
        forall|k: int| 0 <= k < ds.len() ==> (walk_after(tagged(items, None), #[trigger] ds.subrange(0, k), regions) matches Some(p)
            && p.len() > 0 && p.last().0 == preorder(items, regions)[k]),
{
    let start = tagged(items, None);
    let all = preorder(items, regions);
    assert(walk_after(start, ds, regions) == Some(Seq::<(ItemView, Option<nat>)>::empty())) by {
        reveal(walk_after);
        if walk_after(start, ds, regions) != Some(Seq::<(ItemView, Option<nat>)>::empty()) {
            if ds.len() > 0 {
                assert(ds.last() == ds[ds.len() - 1]);
            }
        }
    }
    lemma_pending_tagged(Seq::empty(), items, None, regions);
    assert(Seq::<(ItemView, Option<nat>)>::empty() + start =~= start);
    assert(all + Seq::<ItemView>::empty() =~= all);
    assert(ds.subrange(0, 0) =~= Seq::<WalkControl<C>>::empty());
    reveal(walk_after);
    assert(all.skip(0) =~= all);
    lemma_walk_order(start, ds, regions, all, 0);
}


/// One traversal step, in terms of what remains to be visited in order: continuing at an item
/// leaves the rest of the pre-order after it (its descendants, then what followed it), and skipping
/// it leaves only what followed its whole subtree.
pub proof fn law_walk_step<C>(start: Seq<(ItemView, Option<nat>)>, ds: Seq<WalkControl<C>>, regions: RegionPolicy, k: int)
    requires
        0 <= k < ds.len(),
        walk_after(start, ds.subrange(0, k + 1), regions) is Some,
    ensures
        walk_after(start, ds.subrange(0, k), regions) matches Some(p) && p.len() > 0 && ({
            let rest = pending_order(walk_after(start, ds.subrange(0, k + 1), regions)->Some_0, regions);
            match ds[k] {
                WalkControl::Continue(_) => rest == pending_order(p, regions).drop_first(),
                WalkControl::Skip => rest == pending_order(p, regions).skip(preorder(seq![p.last().0], regions).len() as int),
                WalkControl::Stop => false,
            }
        }),
{
    reveal(walk_after);
    assert(ds.subrange(0, k + 1).drop_last() =~= ds.subrange(0, k));
    assert(ds.subrange(0, k + 1).last() == ds[k]);
    let p = walk_after(start, ds.subrange(0, k), regions)->Some_0;
    let top = p.last().0;
    let q = walk_after(start, ds.subrange(0, k + 1), regions)->Some_0;
    let ones = preorder(seq![top], regions);
    assert(pending_order(p, regions) == ones + pending_order(p.drop_last(), regions));
    match ds[k] {
        WalkControl::Continue(_) => {
            let ch = children_view(top, regions)->Ok_0;
            lemma_pending_tagged(p.drop_last(), ch, Some(k as nat), regions);
            assert(seq![top][0] == top);
            assert(seq![top].subrange(1, 1) =~= Seq::<ItemView>::empty());
            assert(ones == seq![top] + preorder(ch, regions) + preorder(seq![top].subrange(1, 1), regions));
            assert(preorder(Seq::<ItemView>::empty(), regions) == Seq::<ItemView>::empty());
            assert(ones =~= seq![top] + preorder(ch, regions));
            assert(pending_order(q, regions) =~= pending_order(p, regions).drop_first());
        },
        WalkControl::Skip => {
            assert(q == p.drop_last());
            assert(pending_order(p, regions).skip(ones.len() as int) =~= pending_order(p.drop_last(), regions));
        },
        WalkControl::Stop => {},
    }
}

} // verus!
