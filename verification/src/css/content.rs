//! The style tree, how it is made flat, and how it is written out.

use crate::vecs::{lemma_deep_view_push, reversed};
use vstd::prelude::*;

verus! {

/// A node of a style tree.
#[derive(Debug, PartialEq, Eq)]
pub enum Item {
    /// A selector, or one segment of it, with what stands under it.
    Node { name: String, children: Vec<Item> },
    /// A property and its value.
    Declaration(String, String),
}

/// The mathematical model of an `Item`.
pub enum ItemView {
    Node { name: Seq<char>, children: Seq<ItemView> },
    Declaration(Seq<char>, Seq<char>),
}

impl View for Item {
    type V = ItemView;

    open spec fn view(&self) -> ItemView
        decreases self,
    {
        match self {
            Item::Node { name, children } => ItemView::Node {
                name: name@,
                children: Seq::new(
                    children.len() as nat,
                    |i: int|
                        if 0 <= i < children.len() {
                            children[i].view()
                        } else {
                            ItemView::Declaration(Seq::empty(), Seq::empty())
                        },
                ),
            },
            Item::Declaration(property, value) => ItemView::Declaration(property@, value@),
        }
    }
}

impl DeepView for Item {
    type V = ItemView;

    open spec fn deep_view(&self) -> ItemView {
        self.view()
    }
}

/// The model of a node holds the models of its children.
pub proof fn lemma_node_view(item: Item)
    requires
        item is Node,
    ensures
        item@ == (ItemView::Node { name: item->name@, children: item->children.deep_view() }),
{
    assert(item@->children =~= item->children.deep_view());
}

/// A style sheet: its items, in order.
#[derive(Debug, PartialEq, Eq)]
pub struct Content {
    pub items: Vec<Item>,
}

impl View for Content {
    type V = Seq<ItemView>;

    open spec fn view(&self) -> Seq<ItemView> {
        self.items.deep_view()
    }
}

/// The selector of a node named `name` that stands under `namespace`: the two
/// with a space between them, or the name alone where it stands under nothing.
pub open spec fn qualified(namespace: Option<Seq<char>>, name: Seq<char>) -> Seq<char> {
    match namespace {
        Some(path) => path + " "@ + name,
        None => name,
    }
}

/// The declarations among `items`, in order.
pub open spec fn declarations(items: Seq<ItemView>) -> Seq<ItemView>
    decreases items.len(),
{
    if items.len() == 0 {
        Seq::empty()
    } else if items.last() is Declaration {
        declarations(items.drop_last()).push(items.last())
    } else {
        declarations(items.drop_last())
    }
}

/// The rules of the nodes among `items`, which stand under `path`: the rules
/// of the first node, then those of the second, and so on.
pub open spec fn nested_rules(items: Seq<ItemView>, path: Seq<char>, keep_empty: bool) -> Seq<
    ItemView,
>
    decreases items, 0int,
{
    if items.len() == 0 {
        Seq::empty()
    } else {
        nested_rules(items.drop_last(), path, keep_empty) + rules(
            items.last(),
            Some(path),
            keep_empty,
        )
    }
}

/// The rule of a node itself: its full selector with the declarations that
/// stand directly under it.
pub open spec fn own_rule(
    name: Seq<char>,
    children: Seq<ItemView>,
    namespace: Option<Seq<char>>,
) -> ItemView {
    ItemView::Node { name: qualified(namespace, name), children: declarations(children) }
}

/// The flat rules of an item that stands under `namespace`. A node gives the
/// rules of the nodes under it first, and its own rule last. A node with no
/// declaration directly under it gives its own rule, an empty one, only where
/// `keep_empty` says so. A declaration gives no rule.
pub open spec fn rules(item: ItemView, namespace: Option<Seq<char>>, keep_empty: bool) -> Seq<
    ItemView,
>
    decreases item, 1int,
{
    match item {
        ItemView::Node { name, children } => {
            let nested = nested_rules(children, qualified(namespace, name), keep_empty);
            if keep_empty || declarations(children).len() > 0 {
                nested.push(own_rule(name, children, namespace))
            } else {
                nested
            }
        },
        ItemView::Declaration(_, _) => Seq::empty(),
    }
}

/// A style sheet made flat: each node replaced by its rules, in order. A
/// declaration that stands under no node stays where it is.
pub open spec fn flattened(items: Seq<ItemView>, keep_empty: bool) -> Seq<ItemView>
    decreases items.len(),
{
    if items.len() == 0 {
        Seq::empty()
    } else {
        match items.last() {
            ItemView::Node { .. } => flattened(items.drop_last(), keep_empty) + rules(
                items.last(),
                None,
                keep_empty,
            ),
            ItemView::Declaration(_, _) => flattened(items.drop_last(), keep_empty).push(
                items.last(),
            ),
        }
    }
}

/// An item without what stands under it.
pub open spec fn bare(item: ItemView) -> ItemView {
    match item {
        ItemView::Node { name, .. } => ItemView::Node { name, children: Seq::empty() },
        ItemView::Declaration(_, _) => item,
    }
}

/// The items of a list of trees in document order: those of the first tree,
/// then those of the second, and so on.
pub open spec fn document_order_all(items: Seq<ItemView>) -> Seq<ItemView>
    decreases items, 0int,
{
    if items.len() == 0 {
        Seq::empty()
    } else {
        document_order_all(items.drop_last()) + document_order(items.last())
    }
}

/// The items of a tree in document order: the item itself, without what
/// stands under it, and then the items under it.
pub open spec fn document_order(item: ItemView) -> Seq<ItemView>
    decreases item, 1int,
{
    match item {
        ItemView::Node { children, .. } => seq![bare(item)] + document_order_all(children),
        ItemView::Declaration(_, _) => seq![item],
    }
}

/// Only declarations.
pub open spec fn all_declarations(items: Seq<ItemView>) -> bool {
    forall|i: int| 0 <= i < items.len() ==> (#[trigger] items[i]) is Declaration
}

/// A rule: a node with nothing but declarations under it; or a declaration.
pub open spec fn is_rule(item: ItemView) -> bool {
    match item {
        ItemView::Node { children, .. } => all_declarations(children),
        ItemView::Declaration(_, _) => true,
    }
}

/// A flat style sheet: no node stands under a node.
pub open spec fn is_flat(items: Seq<ItemView>) -> bool {
    forall|i: int| 0 <= i < items.len() ==> is_rule(#[trigger] items[i])
}

/// No node is empty.
pub open spec fn all_filled(items: Seq<ItemView>) -> bool {
    forall|i: int|
        0 <= i < items.len() && (#[trigger] items[i]) is Node ==> items[i]->children.len() > 0
}

/// The text of a list of items: the text of each, in order, nothing between
/// them.
pub open spec fn rendered_all(items: Seq<ItemView>) -> Seq<char>
    decreases items, 0int,
{
    if items.len() == 0 {
        Seq::empty()
    } else {
        rendered_all(items.drop_last()) + rendered(items.last())
    }
}

/// The text of an item. A node is its name, ` {`, the text of what stands
/// under it, and `}`; a declaration is its property, `: `, its value and `;`.
pub open spec fn rendered(item: ItemView) -> Seq<char>
    decreases item, 1int,
{
    match item {
        ItemView::Node { name, children } => name + " {"@ + rendered_all(children) + "}"@,
        ItemView::Declaration(property, value) => property + ": "@ + value + ";"@,
    }
}

/// What is picked as declarations is declarations.
proof fn lemma_declarations_are(items: Seq<ItemView>)
    ensures
        all_declarations(declarations(items)),
    decreases items.len(),
{
    if items.len() > 0 {
        lemma_declarations_are(items.drop_last());
    }
}

/// Of declarations only, all are picked.
proof fn lemma_declarations_all(items: Seq<ItemView>)
    requires
        all_declarations(items),
    ensures
        declarations(items) == items,
    decreases items.len(),
{
    if items.len() > 0 {
        let front = items.drop_last();
        assert forall|i: int| 0 <= i < front.len() implies (#[trigger] front[i]) is Declaration by {
            assert(front[i] == items[i]);
        }
        lemma_declarations_all(front);
        assert(front.push(items.last()) =~= items);
    }
}

/// Declarations give no rule.
proof fn lemma_nested_rules_none(items: Seq<ItemView>, path: Seq<char>, keep_empty: bool)
    requires
        all_declarations(items),
    ensures
        nested_rules(items, path, keep_empty) == Seq::<ItemView>::empty(),
    decreases items.len(),
{
    if items.len() > 0 {
        let front = items.drop_last();
        assert forall|i: int| 0 <= i < front.len() implies (#[trigger] front[i]) is Declaration by {
            assert(front[i] == items[i]);
        }
        lemma_nested_rules_none(front, path, keep_empty);
        assert(items.last() is Declaration);
        assert(nested_rules(front, path, keep_empty) + rules(items.last(), Some(path), keep_empty)
            =~= Seq::<ItemView>::empty());
    }
}

/// The rules of nodes are flat, and each is a node; none is empty, but where
/// empty rules are kept.
proof fn lemma_nested_rules_flat(items: Seq<ItemView>, path: Seq<char>, keep_empty: bool)
    ensures
        is_flat(nested_rules(items, path, keep_empty)),
        forall|i: int|
            0 <= i < nested_rules(items, path, keep_empty).len() ==> (#[trigger] nested_rules(
                items,
                path,
                keep_empty,
            )[i]) is Node,
        !keep_empty ==> all_filled(nested_rules(items, path, keep_empty)),
    decreases items, 0int,
{
    if items.len() > 0 {
        lemma_nested_rules_flat(items.drop_last(), path, keep_empty);
        lemma_rules_flat(items.last(), Some(path), keep_empty);
    }
}

/// The rules of an item are flat, and each is a node; none is empty, but
/// where empty rules are kept.
proof fn lemma_rules_flat(item: ItemView, namespace: Option<Seq<char>>, keep_empty: bool)
    ensures
        is_flat(rules(item, namespace, keep_empty)),
        forall|i: int|
            0 <= i < rules(item, namespace, keep_empty).len() ==> (#[trigger] rules(
                item,
                namespace,
                keep_empty,
            )[i]) is Node,
        !keep_empty ==> all_filled(rules(item, namespace, keep_empty)),
    decreases item, 1int,
{
    match item {
        ItemView::Node { name, children } => {
            lemma_nested_rules_flat(children, qualified(namespace, name), keep_empty);
            lemma_declarations_are(children);
        },
        ItemView::Declaration(_, _) => {},
    }
}

/// The rules of a node come in post-order: first the rules of the nodes
/// under it, in their order, and behind them all the rule of the node
/// itself, where it has one: always where empty rules are kept, and else
/// where a declaration stands directly under the node.
pub proof fn lemma_rules_post_order(
    name: Seq<char>,
    children: Seq<ItemView>,
    namespace: Option<Seq<char>>,
    keep_empty: bool,
)
    ensures
        ({
            let all = rules(ItemView::Node { name, children }, namespace, keep_empty);
            let nested = nested_rules(children, qualified(namespace, name), keep_empty);
            if keep_empty || declarations(children).len() > 0 {
                &&& all.drop_last() == nested
                &&& all.last() == own_rule(name, children, namespace)
            } else {
                all == nested
            }
        }),
{
    let nested = nested_rules(children, qualified(namespace, name), keep_empty);
    assert(nested.push(own_rule(name, children, namespace)).drop_last() =~= nested);
}

/// What flattening gives is flat; and no rule in it is empty, but where
/// empty rules are kept.
pub proof fn lemma_flattened_is_flat(items: Seq<ItemView>, keep_empty: bool)
    ensures
        is_flat(flattened(items, keep_empty)),
        !keep_empty ==> all_filled(flattened(items, keep_empty)),
    decreases items.len(),
{
    if items.len() > 0 {
        lemma_flattened_is_flat(items.drop_last(), keep_empty);
        lemma_rules_flat(items.last(), None, keep_empty);
    }
}

/// Flattening leaves a flat style sheet as it is; where empty rules are not
/// kept, one that has no empty rule.
pub proof fn lemma_flattened_flat(items: Seq<ItemView>, keep_empty: bool)
    requires
        is_flat(items),
        keep_empty || all_filled(items),
    ensures
        flattened(items, keep_empty) == items,
    decreases items.len(),
{
    if items.len() > 0 {
        let front = items.drop_last();
        assert forall|i: int| 0 <= i < front.len() implies is_rule(#[trigger] front[i]) by {
            assert(front[i] == items[i]);
        }
        if !keep_empty {
            assert forall|i: int| 0 <= i < front.len() && (#[trigger] front[i]) is Node implies front[i]->children.len()
                > 0 by {
                assert(front[i] == items[i]);
            }
        }
        lemma_flattened_flat(front, keep_empty);
        let last = items.last();
        assert(is_rule(last));
        match last {
            ItemView::Node { name, children } => {
                lemma_nested_rules_none(children, name, keep_empty);
                lemma_declarations_all(children);
                assert(rules(last, None, keep_empty) =~= seq![last]);
                assert(front + seq![last] =~= items);
            },
            ItemView::Declaration(_, _) => {
                assert(front.push(last) =~= items);
            },
        }
    }
}

/// Flattening twice is flattening once.
pub proof fn lemma_flattened_twice(items: Seq<ItemView>, keep_empty: bool)
    ensures
        flattened(flattened(items, keep_empty), keep_empty) == flattened(items, keep_empty),
{
    lemma_flattened_is_flat(items, keep_empty);
    lemma_flattened_flat(flattened(items, keep_empty), keep_empty);
}

/// A style sheet whose items are all nodes becomes a list of nodes: no
/// declaration is left outside a rule.
pub proof fn lemma_flattened_nodes(items: Seq<ItemView>, keep_empty: bool)
    requires
        forall|i: int| 0 <= i < items.len() ==> (#[trigger] items[i]) is Node,
    ensures
        forall|i: int|
            0 <= i < flattened(items, keep_empty).len() ==> (#[trigger] flattened(
                items,
                keep_empty,
            )[i]) is Node,
    decreases items.len(),
{
    if items.len() > 0 {
        let front = items.drop_last();
        assert forall|i: int| 0 <= i < front.len() implies (#[trigger] front[i]) is Node by {
            assert(front[i] == items[i]);
        }
        lemma_flattened_nodes(front, keep_empty);
        lemma_rules_flat(items.last(), None, keep_empty);
    }
}

impl Item {
    /// Makes the item flat, as it stands under `namespace`, and keeps empty
    /// rules. Of a declaration it hands the declaration back, and no rule; of
    /// a node, the rules.
    pub fn flatten(self, namespace: Option<String>) -> (flat: (Option<Item>, Vec<Item>))
        ensures
            match self@ {
                ItemView::Node { .. } => flat.0 is None && flat.1.deep_view() == rules(
                    self@,
                    namespace.deep_view(),
                    true,
                ),
                ItemView::Declaration(_, _) => flat.0.deep_view() == Some(self@) && flat.1@.len()
                    == 0,
            },
    {
        self.flatten_with(namespace, true)
    }

    /// Makes the item flat, as it stands under `namespace`. Of a declaration
    /// it hands the declaration back, and no rule; of a node, the rules, with
    /// or without the empty ones, as `keep_empty` says.
    pub fn flatten_with(self, namespace: Option<String>, keep_empty: bool) -> (flat: (
        Option<Item>,
        Vec<Item>,
    ))
        ensures
            match self@ {
                ItemView::Node { .. } => flat.0 is None && flat.1.deep_view() == rules(
                    self@,
                    namespace.deep_view(),
                    keep_empty,
                ),
                ItemView::Declaration(_, _) => flat.0.deep_view() == Some(self@) && flat.1@.len()
                    == 0,
            },
        decreases self,
    {
        match self {
            Item::Node { name, children } => {
                proof {
                    lemma_node_view(self);
                }
                let my_name = match namespace {
                    Some(path) => {
                        let mut path = path;
                        path.append(" ");
                        path.append(name.as_str());
                        path
                    },
                    None => name,
                };
                let ghost under = children.deep_view();
                let ghost held = children@;
                let count = children.len();
                let mut pending = reversed(children);
                let mut own: Vec<Item> = Vec::new();
                let mut nodes: Vec<Item> = Vec::new();
                proof {
                    assert(under.take(0) =~= Seq::empty());
                    assert(own.deep_view() =~= Seq::empty());
                    assert(nodes.deep_view() =~= Seq::empty());
                }
                while pending.len() > 0
                    invariant
                        self is Node,
                        self->children@ == held,
                        under == self->children.deep_view(),
                        held.len() == count,
                        pending.len() <= count,
                        pending@ == held.reverse().take(pending.len() as int),
                        own.deep_view() == declarations(under.take(count - pending.len())),
                        nodes.deep_view() == nested_rules(
                            under.take(count - pending.len()),
                            my_name@,
                            keep_empty,
                        ),
                    decreases pending.len(),
                {
                    let ghost done = count - pending.len();
                    let child = pending.pop().unwrap();
                    proof {
                        assert(child == held[done]);
                        assert(pending@ =~= held.reverse().take(pending.len() as int));
                        assert(under.take(done + 1).drop_last() =~= under.take(done));
                        assert(under.take(done + 1).last() == child@);
                    }
                    let ghost own_before = own.deep_view();
                    let ghost nodes_before = nodes.deep_view();
                    let (declaration, mut child_nodes) = child.flatten_with(
                        Some(my_name.clone()),
                        keep_empty,
                    );
                    match declaration {
                        Some(item) => {
                            proof {
                                lemma_deep_view_push(own@, item);
                            }
                            own.push(item);
                        },
                        None => {},
                    }
                    let ghost added = child_nodes.deep_view();
                    let ghost nodes_held = nodes@;
                    let ghost added_held = child_nodes@;
                    nodes.append(&mut child_nodes);
                    proof {
                        assert(nodes@ == nodes_held + added_held);
                        assert(nodes.deep_view() =~= nodes_before + added);
                        if child@ is Declaration {
                            assert(added =~= Seq::empty());
                        }
                        assert(added == rules(child@, Some(my_name@), keep_empty));
                        assert(nested_rules(under.take(done + 1), my_name@, keep_empty)
                            == nested_rules(under.take(done + 1).drop_last(), my_name@, keep_empty)
                            + rules(under.take(done + 1).last(), Some(my_name@), keep_empty));
                    }
                }
                proof {
                    assert(under.take(count as int) =~= under);
                }
                if keep_empty || own.len() > 0 {
                    let rule = Item::Node { name: my_name, children: own };
                    proof {
                        lemma_node_view(rule);
                        lemma_deep_view_push(nodes@, rule);
                    }
                    nodes.push(rule);
                }
                (None, nodes)
            },
            Item::Declaration(property, value) => (
                Some(Item::Declaration(property, value)),
                Vec::new(),
            ),
        }
    }

    /// Writes the item out as a style sheet.
    pub fn render(&self) -> (out: String)
        ensures
            out@ == rendered(self@),
        decreases self,
    {
        match self {
            Item::Node { name, children } => {
                proof {
                    lemma_node_view(*self);
                }
                let mut out = name.clone();
                out.append(" {");
                let ghost opening = out@;
                let mut i: usize = 0;
                proof {
                    assert(children.deep_view().take(0) =~= Seq::empty());
                }
                while i < children.len()
                    invariant
                        i <= children.len(),
                        out@ == opening + rendered_all(children.deep_view().take(i as int)),
                        self is Node,
                        self->children == children,
                    decreases children.len() - i,
                {
                    let piece = children[i].render();
                    out.append(piece.as_str());
                    proof {
                        let upto = children.deep_view().take(i + 1);
                        assert(upto.drop_last() =~= children.deep_view().take(i as int));
                        assert(upto.last() == children[i as int]@);
                    }
                    i += 1;
                }
                proof {
                    assert(children.deep_view().take(children.len() as int)
                        =~= children.deep_view());
                }
                out.append("}");
                out
            },
            Item::Declaration(property, value) => {
                let mut out = property.clone();
                out.append(": ");
                out.append(value.as_str());
                out.append(";");
                out
            },
        }
    }
}

impl Content {
    /// Makes the style sheet flat: every node is replaced by its rules, those
    /// of the nodes under it first and its own last. A node with no
    /// declaration directly under it gives an empty rule.
    pub fn flatten(self) -> (flat: Self)
        ensures
            flat@ == flattened(self@, true),
    {
        self.flatten_with(true)
    }

    /// Makes the style sheet flat: every node is replaced by its rules, those
    /// of the nodes under it first and its own last. Whether a node with no
    /// declaration directly under it gives an empty rule or none is as
    /// `keep_empty` says.
    pub fn flatten_with(self, keep_empty: bool) -> (flat: Self)
        ensures
            flat@ == flattened(self@, keep_empty),
    {
        let ghost all = self@;
        let ghost held = self.items@;
        let count = self.items.len();
        let mut pending = reversed(self.items);
        let mut res: Vec<Item> = Vec::new();
        proof {
            assert(all.take(0) =~= Seq::empty());
            assert(res.deep_view() =~= Seq::empty());
        }
        while pending.len() > 0
            invariant
                all == self@,
                held == self.items@,
                held.len() == count,
                pending.len() <= count,
                pending@ == held.reverse().take(pending.len() as int),
                res.deep_view() == flattened(all.take(count - pending.len()), keep_empty),
            decreases pending.len(),
        {
            let ghost done = count - pending.len();
            let item = pending.pop().unwrap();
            proof {
                assert(item == held[done]);
                assert(pending@ =~= held.reverse().take(pending.len() as int));
                assert(all.take(done + 1).drop_last() =~= all.take(done));
                assert(all.take(done + 1).last() == item@);
            }
            let ghost before = res.deep_view();
            let (declaration, mut nodes) = item.flatten_with(None, keep_empty);
            match declaration {
                Some(kept) => {
                    proof {
                        lemma_deep_view_push(res@, kept);
                    }
                    res.push(kept);
                },
                None => {
                    let ghost added = nodes.deep_view();
                    res.append(&mut nodes);
                    proof {
                        assert(res.deep_view() =~= before + added);
                    }
                },
            }
        }
        proof {
            assert(all.take(count as int) =~= all);
        }
        Content { items: res }
    }

    /// Writes the style sheet out: its items one after the other.
    pub fn render(&self) -> (out: String)
        ensures
            out@ == rendered_all(self@),
    {
        let mut out = String::new();
        let mut i: usize = 0;
        proof {
            assert(self@.take(0) =~= Seq::empty());
        }
        while i < self.items.len()
            invariant
                i <= self.items.len(),
                out@ == rendered_all(self@.take(i as int)),
            decreases self.items.len() - i,
        {
            let piece = self.items[i].render();
            out.append(piece.as_str());
            proof {
                let upto = self@.take(i + 1);
                assert(upto.drop_last() =~= self@.take(i as int));
                assert(upto.last() == self.items[i as int]@);
            }
            i += 1;
        }
        proof {
            assert(self@.take(self.items.len() as int) =~= self@);
        }
        out
    }
}

} // verus!
