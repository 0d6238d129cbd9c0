//! A tree of markup: elements with attributes and ordered children, and
//! text.
//!
//! The tree is a plain value. A document is read into it, rewritten as a
//! value, and written out again; nothing is changed in place.

use vstd::prelude::*;
use crate::repo::opt_view;
use crate::text::{chars_of, same_text};

verus! {

/// The namespace of the elements of HTML.
pub open spec fn html_namespace() -> Seq<char> {
    "http://www.w3.org/1999/xhtml"@
}

/// The name of an element or of an attribute, as specifications see it.
pub struct NameView {
    pub prefix: Option<Seq<char>>,
    pub ns: Seq<char>,
    pub local: Seq<char>,
}

/// The name of an element or of an attribute: its local name, with the
/// namespace it lives in and the prefix it was written with.
#[derive(Debug, Clone, PartialEq, Eq)]
pub struct QualifiedName {
    pub prefix: Option<String>,
    pub ns: String,
    pub local: String,
}

impl View for QualifiedName {
    type V = NameView;

    open spec fn view(&self) -> NameView {
        NameView { prefix: opt_view(self.prefix), ns: self.ns@, local: self.local@ }
    }
}

/// An attribute, as specifications see it.
pub struct AttributeView {
    pub name: NameView,
    pub value: Seq<char>,
}

/// An attribute of an element.
#[derive(Debug, Clone, PartialEq, Eq)]
pub struct Attribute {
    pub name: QualifiedName,
    pub value: String,
}

impl View for Attribute {
    type V = AttributeView;

    open spec fn view(&self) -> AttributeView {
        AttributeView { name: self.name@, value: self.value@ }
    }
}

/// The attributes of `attributes`, each by its view.
pub open spec fn attributes_view(attributes: Seq<Attribute>) -> Seq<AttributeView> {
    Seq::new(attributes.len(), |i: int| attributes[i]@)
}

/// Whether the text `a` stands before the text `b` in the order of texts:
/// by the first character in which they differ, or as the beginning of
/// the other.
pub open spec fn text_before(a: Seq<char>, b: Seq<char>) -> bool
    decreases a.len(),
{
    if b.len() == 0 {
        false
    } else if a.len() == 0 {
        true
    } else if a[0] != b[0] {
        (a[0] as u32) < (b[0] as u32)
    } else {
        text_before(a.drop_first(), b.drop_first())
    }
}

/// Whether the two names are the same to an element: names of one
/// namespace and one local name, whatever their prefixes.
pub open spec fn same_key(a: NameView, b: NameView) -> bool {
    a.ns == b.ns && a.local == b.local
}

/// Whether the name `a` stands before the name `b` in an element: by the
/// namespace, then by the local name.
pub open spec fn name_before(a: NameView, b: NameView) -> bool {
    text_before(a.ns, b.ns) || (a.ns == b.ns && text_before(a.local, b.local))
}

/// Whether the attributes stand in the order of their names, each name
/// before the next.
pub open spec fn are_ordered(attributes: Seq<AttributeView>) -> bool {
    forall|i: int|
        0 < i < attributes.len() ==> name_before(
            attributes[i - 1].name,
            (#[trigger] attributes[i]).name,
        )
}

/// The attributes `held` with `attribute` set: in the place of the one
/// of its name, or else where its name stands among the others.
pub open spec fn with_attribute(held: Seq<AttributeView>, attribute: AttributeView) -> Seq<
    AttributeView,
>
    decreases held.len(),
{
    if held.len() == 0 {
        seq![attribute]
    } else if same_key(held.last().name, attribute.name) {
        held.drop_last().push(attribute)
    } else if name_before(held.last().name, attribute.name) {
        held.push(attribute)
    } else {
        with_attribute(held.drop_last(), attribute).push(held.last())
    }
}

/// The attributes with which an element is written, given those it has:
/// each name once, in the order of the names, and of those of one name
/// the last. This is the order in which an element that was read has
/// them.
pub open spec fn held_attributes(attributes: Seq<AttributeView>) -> Seq<AttributeView>
    decreases attributes.len(),
{
    if attributes.len() == 0 {
        Seq::empty()
    } else {
        with_attribute(held_attributes(attributes.drop_last()), attributes.last())
    }
}

/// No text stands before itself.
pub proof fn lemma_text_not_before_itself(a: Seq<char>)
    ensures
        !text_before(a, a),
    decreases a.len(),
{
    if a.len() > 0 {
        lemma_text_not_before_itself(a.drop_first());
    }
}

/// Of two texts that differ one stands before the other.
pub proof fn lemma_text_order_is_total(a: Seq<char>, b: Seq<char>)
    ensures
        a == b || text_before(a, b) || text_before(b, a),
    decreases a.len(),
{
    if a.len() > 0 && b.len() > 0 {
        if a[0] == b[0] {
            lemma_text_order_is_total(a.drop_first(), b.drop_first());
            if a.drop_first() == b.drop_first() {
                assert(a =~= seq![a[0]] + a.drop_first());
                assert(b =~= seq![b[0]] + b.drop_first());
            }
        } else {
            vstd::utf8::char_u32_cast(a[0], a[0] as u32);
            vstd::utf8::char_u32_cast(b[0], b[0] as u32);
        }
    } else if a.len() == 0 && b.len() == 0 {
        assert(a =~= b);
    }
}

/// Attributes in the order of their names stay so when one is set, and
/// the last of them is then the one that was set or the one that was the
/// last.
pub proof fn lemma_with_attribute_is_ordered(held: Seq<AttributeView>, attribute: AttributeView)
    requires
        are_ordered(held),
    ensures
        are_ordered(with_attribute(held, attribute)),
        with_attribute(held, attribute).len() > 0,
        with_attribute(held, attribute).last() == attribute || (held.len() > 0
            && with_attribute(held, attribute).last() == held.last()),
    decreases held.len(),
{
    let out = with_attribute(held, attribute);
    if held.len() > 0 {
        let head = held.drop_last();
        let last = held.last();
        if same_key(last.name, attribute.name) {
            assert forall|i: int| 0 < i < out.len() implies name_before(
                out[i - 1].name,
                (#[trigger] out[i]).name,
            ) by {
                assert(name_before(held[i - 1].name, held[i].name));
            }
        } else if name_before(last.name, attribute.name) {
            assert forall|i: int| 0 < i < out.len() implies name_before(
                out[i - 1].name,
                (#[trigger] out[i]).name,
            ) by {
                if i < held.len() {
                    assert(name_before(held[i - 1].name, held[i].name));
                }
            }
        } else {
            assert forall|i: int| 0 < i < head.len() implies name_before(
                head[i - 1].name,
                (#[trigger] head[i]).name,
            ) by {
                assert(name_before(held[i - 1].name, held[i].name));
            }
            lemma_with_attribute_is_ordered(head, attribute);
            let inner = with_attribute(head, attribute);
            lemma_text_order_is_total(attribute.name.ns, last.name.ns);
            lemma_text_order_is_total(attribute.name.local, last.name.local);
            if inner.last() != attribute {
                assert(name_before(held[held.len() - 2].name, held[held.len() - 1].name));
            }
            assert(name_before(inner.last().name, last.name));
            assert forall|i: int| 0 < i < out.len() implies name_before(
                out[i - 1].name,
                (#[trigger] out[i]).name,
            ) by {
                if i < inner.len() {
                    assert(name_before(inner[i - 1].name, inner[i].name));
                }
            }
        }
    }
}

/// The attributes that an element holds stand in the order of their
/// names.
pub proof fn lemma_held_attributes_are_ordered(attributes: Seq<AttributeView>)
    ensures
        are_ordered(held_attributes(attributes)),
    decreases attributes.len(),
{
    if attributes.len() > 0 {
        lemma_held_attributes_are_ordered(attributes.drop_last());
        lemma_with_attribute_is_ordered(
            held_attributes(attributes.drop_last()),
            attributes.last(),
        );
    }
}

/// Attributes that stand in the order of their names are held as they are
/// given.
pub proof fn lemma_ordered_attributes_are_held(attributes: Seq<AttributeView>)
    requires
        are_ordered(attributes),
    ensures
        held_attributes(attributes) == attributes,
    decreases attributes.len(),
{
    if attributes.len() > 0 {
        let head = attributes.drop_last();
        assert forall|i: int| 0 < i < head.len() implies name_before(
            head[i - 1].name,
            (#[trigger] head[i]).name,
        ) by {
            assert(head[i] == attributes[i]);
            assert(head[i - 1] == attributes[i - 1]);
        }
        lemma_ordered_attributes_are_held(head);
        if head.len() > 0 {
            let i = attributes.len() - 1;
            assert(name_before(attributes[i - 1].name, attributes[i].name));
            assert(head.last() == attributes[i - 1]);
            lemma_text_not_before_itself(attributes[i].name.ns);
            lemma_text_not_before_itself(attributes[i].name.local);
            assert(with_attribute(head, attributes.last()) == head.push(attributes.last()));
        }
        assert(head.push(attributes.last()) =~= attributes);
    }
}

/// A node of markup, as specifications see it.
pub enum MarkupView {
    Element(NameView, Seq<AttributeView>, Seq<MarkupView>),
    Text(Seq<char>),
    Root(Seq<MarkupView>),
    Comment(Seq<char>),
    Doctype(Seq<char>, Seq<char>, Seq<char>),
    ProcessingInstruction(Seq<char>, Seq<char>),
}

/// A node of markup.
#[derive(Debug, PartialEq, Eq)]
pub enum Markup {
    /// An element: its name, its attributes, its children in order.
    Element(QualifiedName, Vec<Attribute>, Vec<Markup>),
    /// A run of text.
    Text(String),
    /// A document or a fragment: the top of a tree.
    Root(Vec<Markup>),
    /// A comment.
    Comment(String),
    /// A document type: its name, its public identifier, its system
    /// identifier.
    Doctype(String, String, String),
    /// A processing instruction: its target and its data.
    ProcessingInstruction(String, String),
}

/// The view of a node.
pub open spec fn markup_view(node: Markup) -> MarkupView
    decreases node, 0nat,
{
    match node {
        Markup::Element(name, attributes, children) => MarkupView::Element(
            name@,
            attributes_view(attributes@),
            markups_view(children@),
        ),
        Markup::Text(text) => MarkupView::Text(text@),
        Markup::Root(children) => MarkupView::Root(markups_view(children@)),
        Markup::Comment(text) => MarkupView::Comment(text@),
        Markup::Doctype(name, public_id, system_id) => MarkupView::Doctype(
            name@,
            public_id@,
            system_id@,
        ),
        Markup::ProcessingInstruction(target, data) => MarkupView::ProcessingInstruction(
            target@,
            data@,
        ),
    }
}

/// The views of a list of nodes.
pub open spec fn markups_view(nodes: Seq<Markup>) -> Seq<MarkupView>
    decreases nodes, 1nat,
{
    if nodes.len() == 0 {
        Seq::empty()
    } else {
        markups_view(nodes.drop_last()).push(markup_view(nodes.last()))
    }
}

impl View for Markup {
    type V = MarkupView;

    open spec fn view(&self) -> MarkupView {
        markup_view(*self)
    }
}

/// The views of a list of nodes, node by node.
pub proof fn lemma_markups_view(nodes: Seq<Markup>)
    ensures
        markups_view(nodes).len() == nodes.len(),
        forall|i: int| 0 <= i < nodes.len() ==> markups_view(nodes)[i] == (#[trigger] nodes[i])@,
    decreases nodes.len(),
{
    if nodes.len() > 0 {
        lemma_markups_view(nodes.drop_last());
        assert forall|i: int| 0 <= i < nodes.len() implies markups_view(nodes)[i]
            == (#[trigger] nodes[i])@ by {
            if i < nodes.len() - 1 {
                assert(nodes.drop_last()[i] == nodes[i]);
            }
        }
    }
}

/// The views of a list with one more node.
pub proof fn lemma_markups_view_push(nodes: Seq<Markup>, node: Markup)
    ensures
        markups_view(nodes.push(node)) == markups_view(nodes).push(node@),
{
    assert(nodes.push(node).drop_last() =~= nodes);
}

/// The views of two lists, one after the other.
pub proof fn lemma_markups_view_add(a: Seq<Markup>, b: Seq<Markup>)
    ensures
        markups_view(a + b) == markups_view(a) + markups_view(b),
{
    lemma_markups_view(a);
    lemma_markups_view(b);
    lemma_markups_view(a + b);
    assert forall|i: int| 0 <= i < (a + b).len() implies markups_view(a + b)[i] == (markups_view(
        a,
    ) + markups_view(b))[i] by {
        if i < a.len() {
            assert((a + b)[i] == a[i]);
        } else {
            assert((a + b)[i] == b[i - a.len()]);
        }
    }
    assert(markups_view(a + b) =~= markups_view(a) + markups_view(b));
}

/// The name `local` in the namespace of HTML, without a prefix.
pub open spec fn html_name(local: Seq<char>) -> NameView {
    NameView { prefix: None, ns: html_namespace(), local }
}

/// The attribute `local`, in no namespace, with the value `value`.
pub open spec fn plain_attribute(local: Seq<char>, value: Seq<char>) -> AttributeView {
    AttributeView { name: NameView { prefix: None, ns: Seq::empty(), local }, value }
}

/// Whether one of the attributes is the attribute `local` in no namespace.
pub open spec fn has_attribute(attributes: Seq<AttributeView>, local: Seq<char>) -> bool {
    exists|i: int|
        0 <= i < attributes.len() && (#[trigger] attributes[i]).name.ns.len() == 0
            && attributes[i].name.local == local
}

impl QualifiedName {
    /// The name `local` in the namespace of HTML, without a prefix.
    pub fn html(local: &str) -> (r: QualifiedName)
        ensures
            r@ == html_name(local@),
    {
        QualifiedName {
            prefix: None,
            ns: "http://www.w3.org/1999/xhtml".to_owned(),
            local: local.to_owned(),
        }
    }

    /// A copy of the name.
    pub fn copy(&self) -> (r: QualifiedName)
        ensures
            r@ == self@,
    {
        QualifiedName {
            prefix: self.prefix.clone(),
            ns: self.ns.clone(),
            local: self.local.clone(),
        }
    }
}

impl Attribute {
    /// The attribute `local`, in no namespace, with the value `value`.
    pub fn plain(local: &str, value: &str) -> (r: Attribute)
        ensures
            r@ == plain_attribute(local@, value@),
    {
        Attribute {
            name: QualifiedName { prefix: None, ns: String::new(), local: local.to_owned() },
            value: value.to_owned(),
        }
    }

    /// A copy of the attribute.
    pub fn copy(&self) -> (r: Attribute)
        ensures
            r@ == self@,
    {
        Attribute { name: self.name.copy(), value: self.value.clone() }
    }
}

/// A copy of a list of attributes.
pub fn copy_attributes(attributes: &Vec<Attribute>) -> (r: Vec<Attribute>)
    ensures
        attributes_view(r@) == attributes_view(attributes@),
{
    let mut r: Vec<Attribute> = Vec::new();
    let mut i: usize = 0;
    while i < attributes.len()
        invariant
            i <= attributes.len(),
            r@.len() == i,
            forall|k: int| 0 <= k < i ==> (#[trigger] r@[k])@ == attributes@[k]@,
        decreases attributes.len() - i,
    {
        r.push(attributes[i].copy());
        i += 1;
    }
    assert(attributes_view(r@) =~= attributes_view(attributes@));
    r
}

/// Whether one of the attributes is the attribute `local` in no namespace.
pub fn attributes_hold(attributes: &Vec<Attribute>, local: &str) -> (b: bool)
    ensures
        b == has_attribute(attributes_view(attributes@), local@),
{
    let mut i: usize = 0;
    while i < attributes.len()
        invariant
            i <= attributes.len(),
            forall|k: int|
                0 <= k < i ==> !((#[trigger] attributes_view(attributes@)[k]).name.ns.len() == 0
                    && attributes_view(attributes@)[k].name.local == local@),
        decreases attributes.len() - i,
    {
        if attributes[i].name.ns.as_str().is_empty() && crate::text::same_text(
            attributes[i].name.local.as_str(),
            local,
        ) {
            assert(attributes_view(attributes@)[i as int].name.local == local@);
            return true;
        }
        i += 1;
    }
    false
}

impl Markup {
    /// An element of HTML with the given local name.
    pub fn element(local: &str, attributes: Vec<Attribute>, children: Vec<Markup>) -> (r: Markup)
        ensures
            r@ == MarkupView::Element(
                html_name(local@),
                attributes_view(attributes@),
                markups_view(children@),
            ),
    {
        Markup::Element(QualifiedName::html(local), attributes, children)
    }

    /// A run of text.
    pub fn text(text: &str) -> (r: Markup)
        ensures
            r@ == MarkupView::Text(text@),
    {
        Markup::Text(text.to_owned())
    }

    /// A copy of the node, with all that is below it.
    #[verifier::loop_isolation(false)]
    pub fn copy(&self) -> (r: Markup)
        ensures
            r@ == self@,
        decreases *self,
    {
        match self {
            Markup::Element(name, attributes, children) => {
                let mut kids: Vec<Markup> = Vec::new();
                let mut i: usize = 0;
                while i < children.len()
                    invariant
                        i <= children.len(),
                        markups_view(kids@) == markups_view(children@.take(i as int)),
                    decreases children.len() - i,
                {
                    let kid = children[i].copy();
                    proof {
                        lemma_markups_view_push(kids@, kid);
                        lemma_markups_view_push(children@.take(i as int), children@[i as int]);
                        assert(children@.take(i + 1) =~= children@.take(i as int).push(
                            children@[i as int],
                        ));
                    }
                    kids.push(kid);
                    i += 1;
                }
                assert(children@.take(children@.len() as int) =~= children@);
                Markup::Element(name.copy(), copy_attributes(attributes), kids)
            },
            Markup::Text(text) => Markup::Text(text.clone()),
            Markup::Root(children) => {
                let mut kids: Vec<Markup> = Vec::new();
                let mut i: usize = 0;
                while i < children.len()
                    invariant
                        i <= children.len(),
                        markups_view(kids@) == markups_view(children@.take(i as int)),
                    decreases children.len() - i,
                {
                    let kid = children[i].copy();
                    proof {
                        lemma_markups_view_push(kids@, kid);
                        lemma_markups_view_push(children@.take(i as int), children@[i as int]);
                        assert(children@.take(i + 1) =~= children@.take(i as int).push(
                            children@[i as int],
                        ));
                    }
                    kids.push(kid);
                    i += 1;
                }
                assert(children@.take(children@.len() as int) =~= children@);
                Markup::Root(kids)
            },
            Markup::Comment(text) => Markup::Comment(text.clone()),
            Markup::Doctype(name, public_id, system_id) => Markup::Doctype(
                name.clone(),
                public_id.clone(),
                system_id.clone(),
            ),
            Markup::ProcessingInstruction(target, data) => Markup::ProcessingInstruction(
                target.clone(),
                data.clone(),
            ),
        }
    }
}

/// What is directly below a node: the children of an element or of a root,
/// nothing for any other node.
pub open spec fn children_of_markup(node: MarkupView) -> Seq<MarkupView> {
    match node {
        MarkupView::Element(_, _, children) => children,
        MarkupView::Root(children) => children,
        _ => Seq::empty(),
    }
}

/// Whether a node can have children: an element or a root.
pub open spec fn is_parent(node: MarkupView) -> bool {
    node is Element || node is Root
}

/// A node with more children behind those it has.
pub open spec fn with_children(node: MarkupView, more: Seq<MarkupView>) -> MarkupView {
    match node {
        MarkupView::Element(name, attributes, children) => MarkupView::Element(
            name,
            attributes,
            children + more,
        ),
        MarkupView::Root(children) => MarkupView::Root(children + more),
        _ => node,
    }
}

/// The number of nodes of a tree.
pub open spec fn size(node: MarkupView) -> nat
    decreases node, 0nat,
{
    match node {
        MarkupView::Element(_, _, children) => 1 + sizes(children),
        MarkupView::Root(children) => 1 + sizes(children),
        _ => 1,
    }
}

/// The number of nodes of a list of trees.
pub open spec fn sizes(nodes: Seq<MarkupView>) -> nat
    decreases nodes, 1nat,
{
    if nodes.len() == 0 {
        0
    } else {
        sizes(nodes.drop_last()) + size(nodes.last())
    }
}

/// The number of levels of a tree.
pub open spec fn height(node: MarkupView) -> nat
    decreases node, 0nat,
{
    match node {
        MarkupView::Element(_, _, children) => 1 + heights(children),
        MarkupView::Root(children) => 1 + heights(children),
        _ => 1,
    }
}

/// The number of levels of the highest of a list of trees.
pub open spec fn heights(nodes: Seq<MarkupView>) -> nat
    decreases nodes, 1nat,
{
    if nodes.len() == 0 {
        0
    } else if height(nodes.last()) > heights(nodes.drop_last()) {
        height(nodes.last())
    } else {
        heights(nodes.drop_last())
    }
}

/// No tree of a list is higher than the highest.
pub proof fn lemma_heights(nodes: Seq<MarkupView>, i: int)
    requires
        0 <= i < nodes.len(),
    ensures
        height(nodes[i]) <= heights(nodes),
    decreases nodes.len(),
{
    if i < nodes.len() - 1 {
        lemma_heights(nodes.drop_last(), i);
        assert(nodes.drop_last()[i] == nodes[i]);
    }
}

/// A tree has at least as many nodes as levels, and at least one.
pub proof fn lemma_height_le_size(node: MarkupView)
    ensures
        1 <= height(node) <= size(node),
    decreases node, 0nat,
{
    match node {
        MarkupView::Element(_, _, children) => lemma_heights_le_sizes(children),
        MarkupView::Root(children) => lemma_heights_le_sizes(children),
        _ => {},
    }
}

/// A list of trees has at least as many nodes as its highest has levels.
pub proof fn lemma_heights_le_sizes(nodes: Seq<MarkupView>)
    ensures
        heights(nodes) <= sizes(nodes),
    decreases nodes, 1nat,
{
    if nodes.len() > 0 {
        lemma_heights_le_sizes(nodes.drop_last());
        lemma_height_le_size(nodes.last());
    }
}

/// Whether the text `a` stands before the text `b`.
pub fn is_text_before(a: &str, b: &str) -> (r: bool)
    ensures
        r == text_before(a@, b@),
{
    let x = chars_of(a);
    let y = chars_of(b);
    let mut i: usize = 0;
    proof {
        assert(x@.skip(0) =~= x@);
        assert(y@.skip(0) =~= y@);
    }
    while i < x.len() && i < y.len()
        invariant
            x@ == a@,
            y@ == b@,
            i <= x.len(),
            i <= y.len(),
            text_before(a@, b@) == text_before(x@.skip(i as int), y@.skip(i as int)),
        decreases x.len() - i,
    {
        let c = x[i];
        let d = y[i];
        proof {
            assert(x@.skip(i as int)[0] == c);
            assert(y@.skip(i as int)[0] == d);
            assert(x@.skip(i as int).drop_first() =~= x@.skip(i + 1));
            assert(y@.skip(i as int).drop_first() =~= y@.skip(i + 1));
        }
        if c != d {
            return (c as u32) < (d as u32);
        }
        i += 1;
    }
    i < y.len()
}

/// Whether the name `a` stands before the name `b` in an element.
pub fn is_name_before(a: &QualifiedName, b: &QualifiedName) -> (r: bool)
    ensures
        r == name_before(a@, b@),
{
    is_text_before(a.ns.as_str(), b.ns.as_str()) || (same_text(a.ns.as_str(), b.ns.as_str())
        && is_text_before(a.local.as_str(), b.local.as_str()))
}

/// Sets `attribute` among the attributes `held`: in the place of the one
/// of its name, or else where its name stands among the others.
pub fn set_attribute(held: &mut Vec<Attribute>, attribute: Attribute)
    ensures
        attributes_view(final(held)@) == with_attribute(attributes_view(old(held)@), attribute@),
{
    let ghost before = attributes_view(held@);
    let ghost set = attribute@;
    let mut j: usize = held.len();
    proof {
        assert(before.take(j as int) =~= before);
        assert(with_attribute(before, set) + before.skip(j as int) =~= with_attribute(before, set));
    }
    while j > 0
        invariant
            j <= held.len(),
            attributes_view(held@) == before,
            before == attributes_view(old(held)@),
            set == attribute@,
            with_attribute(before, set) == with_attribute(before.take(j as int), set)
                + before.skip(j as int),
        decreases j,
    {
        let ghost head = before.take(j as int);
        proof {
            assert(head.last() == before[j - 1]);
            assert(before[j - 1] == held@[j - 1]@);
            assert(head.drop_last() =~= before.take(j - 1));
        }
        let same = same_text(held[j - 1].name.ns.as_str(), attribute.name.ns.as_str())
            && same_text(held[j - 1].name.local.as_str(), attribute.name.local.as_str());
        let ghost given = held@;
        if same {
            held.remove(j - 1);
            held.insert(j - 1, attribute);
            proof {
                assert(same_key(head.last().name, set.name));
                assert(with_attribute(head, set) == head.drop_last().push(set));
                assert(held@ =~= given.update(j - 1, attribute));
                let out = head.drop_last().push(set) + before.skip(j as int);
                assert(attributes_view(held@).len() == out.len());
                assert forall|k: int| 0 <= k < out.len() implies attributes_view(held@)[k]
                    == out[k] by {
                    if k != j - 1 {
                        assert(held@[k] == given[k]);
                        assert(before[k] == given[k]@);
                    }
                }
                assert(attributes_view(held@) =~= out);
            }
            return ;
        }
        if is_name_before(&held[j - 1].name, &attribute.name) {
            held.insert(j, attribute);
            proof {
                assert(name_before(head.last().name, set.name));
                assert(with_attribute(head, set) == head.push(set));
                let out = head.push(set) + before.skip(j as int);
                assert(attributes_view(held@).len() == out.len());
                assert forall|k: int| 0 <= k < out.len() implies attributes_view(held@)[k]
                    == out[k] by {
                    if k < j {
                        assert(held@[k] == given[k]);
                        assert(before[k] == given[k]@);
                    } else if k > j {
                        assert(held@[k] == given[k - 1]);
                        assert(before[k - 1] == given[k - 1]@);
                    }
                }
                assert(attributes_view(held@) =~= out);
            }
            return ;
        }
        proof {
            assert(with_attribute(head, set) == with_attribute(head.drop_last(), set).push(
                head.last(),
            ));
            assert(with_attribute(head.drop_last(), set).push(head.last()) + before.skip(j as int)
                =~= with_attribute(before.take(j - 1), set) + before.skip(j - 1));
        }
        j -= 1;
    }
    held.insert(0, attribute);
    proof {
        assert(before.take(0) =~= Seq::<AttributeView>::empty());
        assert(attributes_view(held@) =~= seq![set] + before.skip(0));
    }
}

/// The attributes as an element holds them: in the order of their names,
/// and of those of one name the last.
pub fn hold_attributes(attributes: &Vec<Attribute>) -> (r: Vec<Attribute>)
    ensures
        attributes_view(r@) == held_attributes(attributes_view(attributes@)),
        are_ordered(attributes_view(r@)),
{
    let ghost given = attributes_view(attributes@);
    let mut r: Vec<Attribute> = Vec::new();
    let mut i: usize = 0;
    proof {
        assert(given.take(0) =~= Seq::<AttributeView>::empty());
        assert(attributes_view(r@) =~= held_attributes(given.take(0)));
    }
    while i < attributes.len()
        invariant
            given == attributes_view(attributes@),
            i <= attributes.len(),
            attributes_view(r@) == held_attributes(given.take(i as int)),
        decreases attributes.len() - i,
    {
        proof {
            assert(given.take(i + 1).drop_last() =~= given.take(i as int));
            assert(given.take(i + 1).last() == attributes@[i as int]@);
        }
        set_attribute(&mut r, attributes[i].copy());
        i += 1;
    }
    proof {
        assert(given.take(attributes@.len() as int) =~= given);
        lemma_held_attributes_are_ordered(given);
    }
    r
}

/// Whether each element of the tree has its attributes in the order of
/// their names, as an element holds them.
pub open spec fn is_tidy(node: MarkupView) -> bool
    decreases node, 0nat,
{
    match node {
        MarkupView::Element(_, attributes, children) => are_ordered(attributes) && are_tidy(
            children,
        ),
        MarkupView::Root(children) => are_tidy(children),
        _ => true,
    }
}

/// Whether each of the trees is tidy.
pub open spec fn are_tidy(nodes: Seq<MarkupView>) -> bool
    decreases nodes, 1nat,
{
    if nodes.len() == 0 {
        true
    } else {
        are_tidy(nodes.drop_last()) && is_tidy(nodes.last())
    }
}

/// Trees that are tidy one by one are tidy together.
pub proof fn lemma_are_tidy(nodes: Seq<MarkupView>)
    requires
        forall|k: int| 0 <= k < nodes.len() ==> is_tidy(#[trigger] nodes[k]),
    ensures
        are_tidy(nodes),
    decreases nodes.len(),
{
    if nodes.len() > 0 {
        assert forall|k: int| 0 <= k < nodes.drop_last().len() implies is_tidy(
            #[trigger] nodes.drop_last()[k],
        ) by {
            assert(nodes.drop_last()[k] == nodes[k]);
        }
        lemma_are_tidy(nodes.drop_last());
        assert(is_tidy(nodes[nodes.len() - 1]));
    }
}

/// Each of tidy trees is tidy.
pub proof fn lemma_each_is_tidy(nodes: Seq<MarkupView>, k: int)
    requires
        are_tidy(nodes),
        0 <= k < nodes.len(),
    ensures
        is_tidy(nodes[k]),
    decreases nodes.len(),
{
    if k < nodes.len() - 1 {
        lemma_each_is_tidy(nodes.drop_last(), k);
    }
}

/// Tidy trees behind tidy trees are tidy trees.
pub proof fn lemma_are_tidy_add(a: Seq<MarkupView>, b: Seq<MarkupView>)
    requires
        are_tidy(a),
        are_tidy(b),
    ensures
        are_tidy(a + b),
{
    assert forall|k: int| 0 <= k < (a + b).len() implies is_tidy(#[trigger] (a + b)[k]) by {
        if k < a.len() {
            lemma_each_is_tidy(a, k);
        } else {
            lemma_each_is_tidy(b, k - a.len());
        }
    }
    lemma_are_tidy(a + b);
}

} // verus!
