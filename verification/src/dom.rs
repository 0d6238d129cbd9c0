//! Reading and writing HTML.
//!
//! HTML is parsed and serialised by `kuchiki`. A parsed document is read
//! into a [`Markup`] value node by node, and a [`Markup`] value is written
//! node by node into a fresh document that is then serialised.
//!
//! What the parser makes of a text and what the serialiser makes of a tree
//! is theirs to say: each is given a name here, and the contracts say which
//! tree is read and which tree is serialised. An element of `kuchiki` keeps
//! its attributes in a map ordered by name, so that a tree is serialised
//! the same in every run; only so can the HTML of a tree have a name.

use vstd::prelude::*;
use vstd::pervasive::unreached;
use html5ever::serialize::{SerializeOpts, TraversalScope};
use html5ever::{LocalName, Namespace, Prefix, QualName};
use kuchiki::traits::TendrilSink;
use kuchiki::{ExpandedName, NodeData, NodeRef};
use crate::markup::{
    are_ordered, are_tidy, attributes_view, children_of_markup, height, heights,
    held_attributes, hold_attributes, html_namespace, is_parent, is_tidy, lemma_are_tidy,
    lemma_height_le_size,
    lemma_heights, lemma_markups_view, lemma_ordered_attributes_are_held, markups_view, size,
    with_children, Attribute, Markup, MarkupView, QualifiedName,
};

verus! {

/// `kuchiki::NodeRef`, a reference to a node of a tree, held as it is: what
/// is inside it is seen only through [`node_markup`].
#[verifier::external_type_specification]
#[verifier::external_body]
pub struct ExNodeRef(NodeRef);

/// The tree that a node is the top of: the node with its children, their
/// children and so on, as the tree stands. The attributes of an element
/// come in the order in which the element holds them. A document and a
/// document fragment are both a root.
pub uninterp spec fn node_markup(node: NodeRef) -> MarkupView;

/// Whether the reference is the only one to its tree: the node was made
/// here, has no parent, and nothing but what was appended through this
/// reference is below it.
pub uninterp spec fn node_is_whole(node: NodeRef) -> bool;

/// The tree that the parser makes of a text taken as an HTML document.
pub uninterp spec fn parsed_document(html: Seq<char>) -> MarkupView;

/// The tree that the parser makes of a text taken as the content of an
/// element of the given namespace and local name.
pub uninterp spec fn parsed_fragment(
    html: Seq<char>,
    namespace: Seq<char>,
    local: Seq<char>,
) -> MarkupView;

/// The HTML that a tree is serialised as.
pub uninterp spec fn html_text(node: MarkupView) -> Seq<char>;

/// The HTML that what is below the top of a tree is serialised as.
pub uninterp spec fn inner_html_text(node: MarkupView) -> Seq<char>;

/// `kuchiki::parse_html` parses a text as an HTML document and gives the
/// document node: the top of the tree that the parser makes of the text.
#[verifier::external_body]
fn parse_document(html: &str) -> (r: NodeRef)
    ensures
        node_markup(r) == parsed_document(html@),
{
    kuchiki::parse_html().from_utf8().one(html.as_bytes())
}

/// `kuchiki::parse_fragment` parses a text as the content of an element
/// of the given name and gives the node above what it parsed.
#[verifier::external_body]
fn parse_fragment_in(html: &str, namespace: &str, local: &str) -> (r: NodeRef)
    ensures
        node_markup(r) == parsed_fragment(html@, namespace@, local@),
{
    let context = QualName::new(None, Namespace::from(namespace), LocalName::from(local));
    kuchiki::parse_fragment(context, Vec::new()).from_utf8().one(html.as_bytes())
}

/// `NodeRef::inclusive_descendants` walks a node and all that is below it,
/// each node once; this counts them.
#[verifier::external_body]
fn descendant_count(node: &NodeRef) -> (n: usize)
    ensures
        n == size(node_markup(*node)),
{
    node.inclusive_descendants().count()
}

/// `NodeRef::children` walks the children of a node in order. Only
/// elements, documents and fragments have any.
#[verifier::external_body]
fn child_nodes(node: &NodeRef) -> (r: Vec<NodeRef>)
    ensures
        r@.len() == children_of_markup(node_markup(*node)).len(),
        forall|i: int|
            0 <= i < r@.len() ==> node_markup(#[trigger] r@[i]) == children_of_markup(
                node_markup(*node),
            )[i],
{
    node.children().collect()
}

/// `Node::as_text` gives the text of a text node, and nothing for any
/// other node.
#[verifier::external_body]
fn text_of(node: &NodeRef) -> (r: Option<String>)
    ensures
        match r {
            Some(text) => node_markup(*node) == MarkupView::Text(text@),
            None => !(node_markup(*node) is Text),
        },
{
    node.as_text().map(|text| text.borrow().clone())
}

/// `Node::as_comment` gives the text of a comment, and nothing for any
/// other node.
#[verifier::external_body]
fn comment_of(node: &NodeRef) -> (r: Option<String>)
    ensures
        match r {
            Some(text) => node_markup(*node) == MarkupView::Comment(text@),
            None => !(node_markup(*node) is Comment),
        },
{
    node.as_comment().map(|text| text.borrow().clone())
}

/// `Node::as_doctype` gives the name and the two identifiers of a document
/// type, and nothing for any other node.
#[verifier::external_body]
fn doctype_of(node: &NodeRef) -> (r: Option<(String, String, String)>)
    ensures
        match r {
            Some(d) => node_markup(*node) == MarkupView::Doctype(d.0@, d.1@, d.2@),
            None => !(node_markup(*node) is Doctype),
        },
{
    node.as_doctype().map(|d| (d.name.clone(), d.public_id.clone(), d.system_id.clone()))
}

/// `Node::data` gives the data of a node, of which this takes the target
/// and the data of a processing instruction, and nothing of any other node.
#[verifier::external_body]
fn processing_instruction_of(node: &NodeRef) -> (r: Option<(String, String)>)
    ensures
        match r {
            Some(p) => node_markup(*node) == MarkupView::ProcessingInstruction(p.0@, p.1@),
            None => !(node_markup(*node) is ProcessingInstruction),
        },
{
    match node.data() {
        NodeData::ProcessingInstruction(contents) => Some(contents.borrow().clone()),
        _ => None,
    }
}

/// `Node::as_element` gives the data of an element, of which this takes
/// the name, and nothing for any other node.
#[verifier::external_body]
fn element_name_of(node: &NodeRef) -> (r: Option<QualifiedName>)
    ensures
        match r {
            Some(name) => node_markup(*node) is Element && node_markup(*node)->Element_0
                == name@,
            None => !(node_markup(*node) is Element),
        },
{
    node.as_element().map(|element| QualifiedName {
        prefix: element.name.prefix.as_ref().map(|prefix| prefix.to_string()),
        ns: element.name.ns.to_string(),
        local: element.name.local.to_string(),
    })
}

/// `Node::as_element` gives the data of an element, of which this takes
/// the attributes, in the order in which the element holds them: that of
/// their names, as it is a map by name that the element holds.
#[verifier::external_body]
fn attributes_of(node: &NodeRef) -> (r: Vec<Attribute>)
    ensures
        node_markup(*node) is Element ==> attributes_view(r@) == node_markup(*node)->Element_1,
        are_ordered(attributes_view(r@)),
{
    node.as_element().map_or(Vec::new(), |element| {
        element.attributes.borrow().map.iter().map(|(name, attribute)| Attribute {
            name: QualifiedName {
                prefix: attribute.prefix.as_ref().map(|prefix| prefix.to_string()),
                ns: name.ns.to_string(),
                local: name.local.to_string(),
            },
            value: attribute.value.clone(),
        }).collect()
    })
}

/// `NodeRef::new_element` makes an element without parent or children. It
/// collects its attributes into a map by namespace and local name, which
/// holds them in the order of these names. Attributes that are given in
/// that order, each name once, are therefore held as they are given; no
/// others are given here, as the map does not say which of two attributes
/// of one name it keeps.
#[verifier::external_body]
fn new_element(name: &QualifiedName, attributes: &Vec<Attribute>) -> (r: NodeRef)
    requires
        are_ordered(attributes_view(attributes@)),
    ensures
        node_markup(r) == MarkupView::Element(name@, attributes_view(attributes@), Seq::empty()),
        node_is_whole(r),
{
    NodeRef::new_element(
        QualName::new(
            name.prefix.as_ref().map(|prefix| Prefix::from(prefix.as_str())),
            Namespace::from(name.ns.as_str()),
            LocalName::from(name.local.as_str()),
        ),
        attributes.iter().map(|attribute| (
            ExpandedName::new(attribute.name.ns.as_str(), attribute.name.local.as_str()),
            kuchiki::Attribute {
                prefix: attribute.name.prefix.as_ref().map(|prefix| Prefix::from(prefix.as_str())),
                value: attribute.value.clone(),
            },
        )),
    )
}

/// `NodeRef::new_text` makes a text node without parent.
#[verifier::external_body]
fn new_text(text: &str) -> (r: NodeRef)
    ensures
        node_markup(r) == MarkupView::Text(text@),
        node_is_whole(r),
{
    NodeRef::new_text(text)
}

/// `NodeRef::new_comment` makes a comment without parent.
#[verifier::external_body]
fn new_comment(text: &str) -> (r: NodeRef)
    ensures
        node_markup(r) == MarkupView::Comment(text@),
        node_is_whole(r),
{
    NodeRef::new_comment(text)
}

/// `NodeRef::new_doctype` makes a document type without parent.
#[verifier::external_body]
fn new_doctype(name: &str, public_id: &str, system_id: &str) -> (r: NodeRef)
    ensures
        node_markup(r) == MarkupView::Doctype(name@, public_id@, system_id@),
        node_is_whole(r),
{
    NodeRef::new_doctype(name, public_id, system_id)
}

/// `NodeRef::new_processing_instruction` makes a processing instruction
/// without parent.
#[verifier::external_body]
fn new_processing_instruction(target: &str, data: &str) -> (r: NodeRef)
    ensures
        node_markup(r) == MarkupView::ProcessingInstruction(target@, data@),
        node_is_whole(r),
{
    NodeRef::new_processing_instruction(target, data)
}

/// `NodeRef::new_document` makes a document node without children.
#[verifier::external_body]
fn new_document() -> (r: NodeRef)
    ensures
        node_markup(r) == MarkupView::Root(Seq::empty()),
        node_is_whole(r),
{
    NodeRef::new_document()
}

/// `NodeRef::append` makes a node the last child of another. Here both are
/// reached by no other reference, so that nothing else changes.
#[verifier::external_body]
fn append(parent: &mut NodeRef, child: NodeRef)
    requires
        node_is_whole(*old(parent)),
        node_is_whole(child),
        is_parent(node_markup(*old(parent))),
    ensures
        node_markup(*final(parent)) == with_children(
            node_markup(*old(parent)),
            seq![node_markup(child)],
        ),
        node_is_whole(*final(parent)),
{
    parent.append(child)
}

/// `NodeRef::to_string` serialises a node and all that is below it as
/// HTML.
#[verifier::external_body]
fn serialize(node: &NodeRef) -> (r: String)
    ensures
        r@ == html_text(node_markup(*node)),
{
    node.to_string()
}

/// `html5ever::serialize`, asked for the children only, serialises what is
/// below a node as HTML.
#[verifier::external_body]
fn serialize_children(node: &NodeRef) -> (r: String)
    ensures
        r@ == inner_html_text(node_markup(*node)),
{
    let mut bytes = Vec::new();
    let opts = SerializeOpts {
        traversal_scope: TraversalScope::ChildrenOnly(None),
        ..Default::default()
    };
    html5ever::serialize(&mut bytes, node, opts).unwrap();
    String::from_utf8(bytes).unwrap()
}

/// Reads the children of `node`, each with at most `depth` levels.
///
/// Gives nothing where one of them has more levels.
fn read_children(node: &NodeRef, depth: usize) -> (r: Option<Vec<Markup>>)
    ensures
        match r {
            Some(children) => markups_view(children@) == children_of_markup(node_markup(*node))
                && are_tidy(markups_view(children@)),
            None => depth < heights(children_of_markup(node_markup(*node))),
        },
    decreases depth, 1nat,
{
    let ghost below = children_of_markup(node_markup(*node));
    let nodes = child_nodes(node);
    let mut children: Vec<Markup> = Vec::new();
    let mut i: usize = 0;
    while i < nodes.len()
        invariant
            below == children_of_markup(node_markup(*node)),
            nodes@.len() == below.len(),
            forall|k: int| 0 <= k < nodes@.len() ==> node_markup(#[trigger] nodes@[k]) == below[k],
            i <= nodes.len(),
            children@.len() == i,
            forall|k: int| 0 <= k < i ==> (#[trigger] children@[k])@ == below[k],
            forall|k: int| 0 <= k < i ==> is_tidy((#[trigger] children@[k])@),
        decreases nodes.len() - i,
    {
        match read_node(&nodes[i], depth) {
            Some(child) => children.push(child),
            None => {
                proof {
                    lemma_heights(below, i as int);
                }
                return None;
            },
        }
        i += 1;
    }
    proof {
        lemma_markups_view(children@);
        assert forall|k: int| 0 <= k < below.len() implies markups_view(children@)[k]
            == below[k] by {
            assert(markups_view(children@)[k] == children@[k]@);
        }
        assert(markups_view(children@) =~= below);
        assert forall|k: int| 0 <= k < below.len() implies is_tidy(#[trigger] below[k]) by {
            assert(below[k] == children@[k]@);
        }
        lemma_are_tidy(below);
    }
    Some(children)
}

/// Reads `node` and what is below it, at most `depth` levels of it.
///
/// Gives the tree that the node is the top of, or nothing where the tree
/// has more levels.
fn read_node(node: &NodeRef, depth: usize) -> (r: Option<Markup>)
    ensures
        match r {
            Some(markup) => markup@ == node_markup(*node) && is_tidy(markup@),
            None => depth < height(node_markup(*node)),
        },
    decreases depth, 0nat,
{
    proof {
        lemma_height_le_size(node_markup(*node));
    }
    if depth == 0 {
        return None;
    }
    if let Some(text) = text_of(node) {
        return Some(Markup::Text(text));
    }
    if let Some(text) = comment_of(node) {
        return Some(Markup::Comment(text));
    }
    if let Some((name, public_id, system_id)) = doctype_of(node) {
        return Some(Markup::Doctype(name, public_id, system_id));
    }
    if let Some((target, data)) = processing_instruction_of(node) {
        return Some(Markup::ProcessingInstruction(target, data));
    }
    if let Some(name) = element_name_of(node) {
        return match read_children(node, depth - 1) {
            Some(children) => Some(Markup::Element(name, attributes_of(node), children)),
            None => None,
        };
    }
    match read_children(node, depth - 1) {
        Some(children) => Some(Markup::Root(children)),
        None => None,
    }
}

/// Reads all of the tree under `root`.
fn read_tree(root: &NodeRef) -> (r: Markup)
    ensures
        r@ == node_markup(*root),
        is_tidy(r@),
{
    proof {
        lemma_height_le_size(node_markup(*root));
    }
    // No node lies deeper than the tree has nodes.
    match read_node(root, descendant_count(root)) {
        Some(markup) => markup,
        None => unreached(),
    }
}

/// Parses `html` as an HTML document, and gives the tree that the parser
/// makes of it.
pub fn parse_html(html: &str) -> (r: Markup)
    ensures
        r@ == parsed_document(html@),
        is_tidy(r@),
{
    read_tree(&parse_document(html))
}

/// The HTML of the document that the parser reads from `html`: what the
/// serialiser makes of the parser's tree.
pub open spec fn reread_html(html: Seq<char>) -> Seq<char> {
    html_text(parsed_document(html))
}

/// Parses `html` as an HTML document, and gives the tree that the parser
/// makes of it together with the HTML that the serialiser makes of that
/// tree.
pub fn reread(html: &str) -> (r: (Markup, String))
    ensures
        r.0@ == parsed_document(html@),
        is_tidy(r.0@),
        r.1@ == reread_html(html@),
{
    let document = parse_document(html);
    (read_tree(&document), serialize(&document))
}

/// The tree that the parser makes of a text taken as a piece of the body
/// of an HTML document.
pub open spec fn parsed_body_fragment(html: Seq<char>) -> MarkupView {
    parsed_fragment(html, html_namespace(), "body"@)
}

/// Parses `html` as a piece of the body of an HTML document, and gives the
/// tree that the parser makes of it.
pub fn parse_html_fragment(html: &str) -> (r: Markup)
    ensures
        r@ == parsed_body_fragment(html@),
        is_tidy(r@),
{
    read_tree(&parse_fragment_in(html, "http://www.w3.org/1999/xhtml", "body"))
}

/// A tree as it stands once it is written: each element holds its
/// attributes as elements keep them.
pub open spec fn written(node: MarkupView) -> MarkupView
    decreases node, 0nat,
{
    match node {
        MarkupView::Element(name, attributes, children) => MarkupView::Element(
            name,
            held_attributes(attributes),
            written_all(children),
        ),
        MarkupView::Root(children) => MarkupView::Root(written_all(children)),
        _ => node,
    }
}

/// A list of trees as they stand once they are written.
pub open spec fn written_all(nodes: Seq<MarkupView>) -> Seq<MarkupView>
    decreases nodes, 1nat,
{
    if nodes.len() == 0 {
        Seq::empty()
    } else {
        written_all(nodes.drop_last()).push(written(nodes.last()))
    }
}

/// A tidy tree is written as it is.
pub proof fn lemma_tidy_is_written_as_it_is(node: MarkupView)
    requires
        is_tidy(node),
    ensures
        written(node) == node,
    decreases node, 0nat,
{
    match node {
        MarkupView::Element(_, attributes, children) => {
            lemma_ordered_attributes_are_held(attributes);
            lemma_tidy_are_written_as_they_are(children);
        },
        MarkupView::Root(children) => {
            lemma_tidy_are_written_as_they_are(children);
        },
        _ => {},
    }
}

/// Tidy trees are written as they are.
pub proof fn lemma_tidy_are_written_as_they_are(nodes: Seq<MarkupView>)
    requires
        are_tidy(nodes),
    ensures
        written_all(nodes) == nodes,
    decreases nodes, 1nat,
{
    if nodes.len() > 0 {
        lemma_tidy_are_written_as_they_are(nodes.drop_last());
        lemma_tidy_is_written_as_it_is(nodes.last());
        assert(nodes.drop_last().push(nodes.last()) =~= nodes);
    }
}

/// Writes the children `children` under `parent`, behind those it has.
#[verifier::loop_isolation(false)]
fn write_children(parent: &mut NodeRef, children: &Vec<Markup>)
    requires
        node_is_whole(*old(parent)),
        is_parent(node_markup(*old(parent))),
    ensures
        node_markup(*final(parent)) == with_children(
            node_markup(*old(parent)),
            written_all(markups_view(children@)),
        ),
        node_is_whole(*final(parent)),
    decreases children,
{
    let ghost all = markups_view(children@);
    let ghost before = node_markup(*parent);
    let mut i: usize = 0;
    proof {
        lemma_markups_view(children@);
        assert(all.take(0) =~= Seq::<MarkupView>::empty());
        assert(children_of_markup(before) + Seq::<MarkupView>::empty() =~= children_of_markup(
            before,
        ));
    }
    while i < children.len()
        invariant
            i <= children.len(),
            node_is_whole(*parent),
            is_parent(node_markup(*parent)),
            node_markup(*parent) == with_children(before, written_all(all.take(i as int))),
        decreases children.len() - i,
    {
        let ghost so_far = written_all(all.take(i as int));
        let child = write_node(&children[i]);
        append(parent, child);
        proof {
            assert(all.take(i + 1).drop_last() =~= all.take(i as int));
            assert(all.take(i + 1).last() == children@[i as int]@);
            assert(written_all(all.take(i + 1)) == so_far.push(written(children@[i as int]@)));
            assert(children_of_markup(before) + so_far + seq![written(children@[i as int]@)]
                =~= children_of_markup(before) + so_far.push(written(children@[i as int]@)));
        }
        i += 1;
    }
    proof {
        assert(all.take(children@.len() as int) =~= all);
    }
}

/// Writes `markup` as a fresh node with all that is below it.
fn write_node(markup: &Markup) -> (r: NodeRef)
    ensures
        node_markup(r) == written(markup@),
        node_is_whole(r),
    decreases *markup,
{
    match markup {
        Markup::Element(name, attributes, children) => {
            let mut node = new_element(name, &hold_attributes(attributes));
            write_children(&mut node, children);
            proof {
                assert(Seq::<MarkupView>::empty() + written_all(markups_view(children@))
                    =~= written_all(markups_view(children@)));
            }
            node
        },
        Markup::Text(text) => new_text(text.as_str()),
        Markup::Root(children) => {
            let mut node = new_document();
            write_children(&mut node, children);
            proof {
                assert(Seq::<MarkupView>::empty() + written_all(markups_view(children@))
                    =~= written_all(markups_view(children@)));
            }
            node
        },
        Markup::Comment(text) => new_comment(text.as_str()),
        Markup::Doctype(name, public_id, system_id) => new_doctype(
            name.as_str(),
            public_id.as_str(),
            system_id.as_str(),
        ),
        Markup::ProcessingInstruction(target, data) => new_processing_instruction(
            target.as_str(),
            data.as_str(),
        ),
    }
}

/// Serialises `markup` as HTML: writes it as a fresh tree and gives what
/// the serialiser makes of that tree. A tidy tree, such as one that was
/// read, is written as it is.
pub fn to_html(markup: &Markup) -> (r: String)
    ensures
        r@ == html_text(written(markup@)),
        is_tidy(markup@) ==> r@ == html_text(markup@),
{
    proof {
        if is_tidy(markup@) {
            lemma_tidy_is_written_as_it_is(markup@);
        }
    }
    serialize(&write_node(markup))
}

/// Serialises what is below the top of `markup` as HTML. A tidy tree,
/// such as one that was read, is written as it is.
pub fn to_inner_html(markup: &Markup) -> (r: String)
    ensures
        r@ == inner_html_text(written(markup@)),
        is_tidy(markup@) ==> r@ == inner_html_text(markup@),
{
    proof {
        if is_tidy(markup@) {
            lemma_tidy_is_written_as_it_is(markup@);
        }
    }
    serialize_children(&write_node(markup))
}

} // verus!
