//! A site that summarises a context: the units as a tree of definition
//! lists, each unit with the units that implement it.

use vstd::prelude::*;
use crate::grammar::id_text;
use crate::graph::{node_units, unit_ids, UnitGraph};
use crate::hierarchy::{
    children_of, graph_of, lemma_children_are_deeper, lemma_longest, lemma_nodes_are_the_ids,
    longest, node_id, roots_of, IdView,
};
use crate::logical_unit::LogicalUnit;
use crate::text::{join, joined, strings_view};

verus! {

/// A piece of HTML, as specifications see it.
pub enum HtmlView {
    Tag(Seq<char>, Seq<(Seq<char>, Seq<char>)>, Seq<HtmlView>),
    Text(Seq<char>),
}

/// A piece of HTML: an element with its attributes and what is in it, or a
/// text.
#[derive(Debug, PartialEq, Eq)]
pub enum Html {
    Tag(String, Vec<(String, String)>, Vec<Html>),
    Text(String),
}

/// The attributes of `attrs`, each by its view.
pub open spec fn attrs_view(attrs: Seq<(String, String)>) -> Seq<(Seq<char>, Seq<char>)> {
    Seq::new(attrs.len(), |i: int| (attrs[i].0@, attrs[i].1@))
}

/// The view of a piece of HTML.
pub open spec fn html_view(html: Html) -> HtmlView
    decreases html, 0nat,
{
    match html {
        Html::Tag(tag, attrs, inner) => HtmlView::Tag(tag@, attrs_view(attrs@), htmls_view(inner@)),
        Html::Text(text) => HtmlView::Text(text@),
    }
}

/// The views of pieces of HTML.
pub open spec fn htmls_view(nodes: Seq<Html>) -> Seq<HtmlView>
    decreases nodes, 1nat,
{
    if nodes.len() == 0 {
        Seq::empty()
    } else {
        htmls_view(nodes.drop_last()).push(html_view(nodes.last()))
    }
}

impl View for Html {
    type V = HtmlView;

    open spec fn view(&self) -> HtmlView {
        html_view(*self)
    }
}

/// The views of pieces of HTML, piece by piece.
pub proof fn lemma_htmls_view(nodes: Seq<Html>)
    ensures
        htmls_view(nodes).len() == nodes.len(),
        forall|i: int| 0 <= i < nodes.len() ==> htmls_view(nodes)[i] == (#[trigger] nodes[i])@,
    decreases nodes.len(),
{
    if nodes.len() > 0 {
        lemma_htmls_view(nodes.drop_last());
        assert forall|i: int| 0 <= i < nodes.len() implies htmls_view(nodes)[i]
            == (#[trigger] nodes[i])@ by {
            if i < nodes.len() - 1 {
                assert(nodes.drop_last()[i] == nodes[i]);
            }
        }
    }
}

/// The views of two lists of pieces, one after the other.
pub proof fn lemma_htmls_view_add(a: Seq<Html>, b: Seq<Html>)
    ensures
        htmls_view(a + b) == htmls_view(a) + htmls_view(b),
{
    lemma_htmls_view(a);
    lemma_htmls_view(b);
    lemma_htmls_view(a + b);
    assert forall|i: int| 0 <= i < (a + b).len() implies htmls_view(a + b)[i] == (htmls_view(a)
        + htmls_view(b))[i] by {
        if i < a.len() {
            assert((a + b)[i] == a[i]);
        } else {
            assert((a + b)[i] == b[i - a.len()]);
        }
    }
    assert(htmls_view(a + b) =~= htmls_view(a) + htmls_view(b));
}

/// The text of an attribute: `name="value"`.
pub open spec fn attr_text(attr: (Seq<char>, Seq<char>)) -> Seq<char> {
    attr.0 + "=\""@ + attr.1 + "\""@
}

/// The texts of attributes, with a space between each two.
pub open spec fn attrs_text(attrs: Seq<(Seq<char>, Seq<char>)>) -> Seq<char> {
    joined(Seq::new(attrs.len(), |i: int| attr_text(attrs[i])), " "@)
}

/// The text of attributes: each as `name="value"`, with a space between
/// each two.
pub fn attrs_to_string(attrs: &Vec<(String, String)>) -> (r: String)
    ensures
        r@ == attrs_text(attrs_view(attrs@)),
{
    let mut parts: Vec<String> = Vec::new();
    let mut i: usize = 0;
    while i < attrs.len()
        invariant
            i <= attrs.len(),
            parts@.len() == i,
            forall|k: int|
                0 <= k < i ==> (#[trigger] parts@[k])@ == attr_text(attrs_view(attrs@)[k]),
        decreases attrs.len() - i,
    {
        let mut part = attrs[i].0.clone();
        part.push_str("=\"");
        part.push_str(attrs[i].1.as_str());
        part.push_str("\"");
        parts.push(part);
        i += 1;
    }
    assert(strings_view(parts@) =~= Seq::new(
        attrs_view(attrs@).len(),
        |i: int| attr_text(attrs_view(attrs@)[i]),
    ));
    join(&parts, " ")
}

/// A run of `n` spaces.
pub open spec fn spaces(n: nat) -> Seq<char> {
    Seq::new(n, |i: int| ' ')
}

/// A piece of HTML as text, indented by `indent` spaces: an element as its
/// opening tag, what is in it, indented by two spaces more, and its
/// closing tag, each on lines of their own; a text on a line of its own,
/// indented by two spaces more than the element it is in.
pub open spec fn rendered(html: HtmlView, indent: nat) -> Seq<char>
    decreases html, 0nat,
{
    match html {
        HtmlView::Tag(tag, attrs, inner) => spaces(indent) + "<"@ + tag + " "@ + attrs_text(attrs)
            + ">\n"@ + rendered_all(inner, indent + 2) + spaces(indent) + "</"@ + tag + ">\n"@,
        HtmlView::Text(text) => spaces(indent + 2) + text + "\n"@,
    }
}

/// Pieces of HTML as text, one after the other.
pub open spec fn rendered_all(nodes: Seq<HtmlView>, indent: nat) -> Seq<char>
    decreases nodes, 1nat,
{
    if nodes.len() == 0 {
        Seq::empty()
    } else {
        rendered_all(nodes.drop_last(), indent) + rendered(nodes.last(), indent)
    }
}

/// The pair of an attribute.
pub fn attr(name: &str, value: &str) -> (r: (String, String))
    ensures
        r.0@ == name@,
        r.1@ == value@,
{
    (name.to_owned(), value.to_owned())
}

impl Html {
    /// An element.
    pub fn tag(tag: &str, attrs: Vec<(String, String)>, inner: Vec<Html>) -> (r: Html)
        ensures
            r@ == HtmlView::Tag(tag@, attrs_view(attrs@), htmls_view(inner@)),
    {
        Html::Tag(tag.to_owned(), attrs, inner)
    }

    /// A text.
    pub fn txt(text: &str) -> (r: Html)
        ensures
            r@ == HtmlView::Text(text@),
    {
        Html::Text(text.to_owned())
    }

    /// Appends the text of the pieces `nodes` to `out`, each indented by
    /// `prefix`.
    #[verifier::loop_isolation(false)]
    fn fmt_all(nodes: &Vec<Html>, out: &mut String, prefix: &str, Ghost(indent): Ghost<nat>)
        requires
            prefix@ == spaces(indent),
        ensures
            final(out)@ == old(out)@ + rendered_all(htmls_view(nodes@), indent),
        decreases nodes,
    {
        let ghost all = htmls_view(nodes@);
        let mut i: usize = 0;
        proof {
            lemma_htmls_view(nodes@);
            assert(all.take(0) =~= Seq::<HtmlView>::empty());
            assert(out@ + rendered_all(all.take(0), indent) =~= out@);
        }
        while i < nodes.len()
            invariant
                i <= nodes.len(),
                out@ == old(out)@ + rendered_all(all.take(i as int), indent),
            decreases nodes.len() - i,
        {
            let ghost before = out@;
            nodes[i].fmt_indented(out, prefix, Ghost(indent));
            proof {
                assert(all.take(i + 1).drop_last() =~= all.take(i as int));
                assert(all.take(i + 1).last() == nodes@[i as int]@);
                assert(old(out)@ + (rendered_all(all.take(i as int), indent) + rendered(
                    nodes@[i as int]@,
                    indent,
                )) =~= before + rendered(nodes@[i as int]@, indent));
            }
            i += 1;
        }
        proof {
            assert(all.take(nodes@.len() as int) =~= all);
        }
    }

    /// Appends the text of the piece to `out`, indented by `prefix`.
    fn fmt_indented(&self, out: &mut String, prefix: &str, Ghost(indent): Ghost<nat>)
        requires
            prefix@ == spaces(indent),
        ensures
            final(out)@ == old(out)@ + rendered(self@, indent),
        decreases *self,
    {
        let mut deeper = prefix.to_owned();
        deeper.push_str("  ");
        proof {
            reveal_strlit("  ");
            assert(deeper@ =~= spaces(indent + 2));
        }
        match self {
            Html::Tag(tag, attrs, inner) => {
                out.push_str(prefix);
                out.push_str("<");
                out.push_str(tag.as_str());
                out.push_str(" ");
                out.push_str(attrs_to_string(attrs).as_str());
                out.push_str(">\n");
                Html::fmt_all(inner, out, deeper.as_str(), Ghost(indent + 2));
                out.push_str(prefix);
                out.push_str("</");
                out.push_str(tag.as_str());
                out.push_str(">\n");
                assert(out@ =~= old(out)@ + rendered(self@, indent));
            },
            Html::Text(text) => {
                out.push_str(deeper.as_str());
                out.push_str(text.as_str());
                out.push_str("\n");
                assert(out@ =~= old(out)@ + rendered(self@, indent));
            },
        }
    }

    /// The piece as text, not indented.
    pub fn to_string(&self) -> (r: String)
        ensures
            r@ == rendered(self@, 0),
    {
        let mut out = String::new();
        proof {
            reveal_strlit("");
            assert(""@ =~= spaces(0));
        }
        self.fmt_indented(&mut out, "", Ghost(0));
        assert(Seq::<char>::empty() + rendered(self@, 0) =~= rendered(self@, 0));
        out
    }
}

/// How many levels can lie below node `node` of the graph of `ids`: the
/// parts of the longest identifier that node `node` does not have.
pub open spec fn depth_left(ids: Seq<IdView>, node: int) -> nat {
    let m = graph_of(ids);
    if 0 <= node < m.nodes.len() && node_id(ids, m, node).len() <= longest(
        ids,
        ids.len() as int,
    ) {
        (longest(ids, ids.len() as int) - node_id(ids, m, node).len()) as nat
    } else {
        0
    }
}

/// An element without attributes that holds one text.
pub open spec fn titled(tag: Seq<char>, text: Seq<char>) -> HtmlView {
    HtmlView::Tag(tag, Seq::empty(), seq![HtmlView::Text(text)])
}

/// The term and the definition of the unit of node `node`: the term is the
/// identifier, anchored; the definition is the content of the unit and,
/// where the unit has children, a list of them that can be folded away.
pub open spec fn unit_tree(units: Seq<LogicalUnit>, node: int) -> Seq<HtmlView>
    decreases depth_left(unit_ids(units), node), 1nat, 0nat,
{
    let ids = unit_ids(units);
    let m = graph_of(ids);
    if 0 <= node < m.nodes.len() {
        let unit = units[m.nodes[node]];
        let id = id_text(unit.id@);
        let content = HtmlView::Tag(
            "p"@,
            seq![("class"@, "content"@)],
            seq![HtmlView::Text(unit.content@)],
        );
        let items = unit_trees(units, node, children_of(m, node).len() as int);
        let implementors = if items.len() == 0 {
            Seq::empty()
        } else {
            seq![
                HtmlView::Tag(
                    "details"@,
                    seq![("class"@, "implementations"@)],
                    seq![
                        titled("summary"@, "Implemented by..."@),
                        HtmlView::Tag("dl"@, Seq::empty(), items),
                    ],
                ),
            ]
        };
        seq![
            HtmlView::Tag("dt"@, seq![("id"@, id)], seq![titled("strong"@, id)]),
            HtmlView::Tag("dd"@, Seq::empty(), seq![content] + implementors),
        ]
    } else {
        Seq::empty()
    }
}

/// The terms and definitions of the first `n` children of node `parent`.
pub open spec fn unit_trees(units: Seq<LogicalUnit>, parent: int, n: int) -> Seq<HtmlView>
    decreases depth_left(unit_ids(units), parent), 0nat, n,
{
    let ids = unit_ids(units);
    let m = graph_of(ids);
    if 0 < n <= children_of(m, parent).len() {
        let child = children_of(m, parent)[n - 1];
        unit_trees(units, parent, n - 1) + (if depth_left(ids, child) < depth_left(ids, parent) {
            unit_tree(units, child)
        } else {
            Seq::empty()
        })
    } else {
        Seq::empty()
    }
}

/// The terms and definitions of the first `n` roots of the graph.
pub open spec fn root_trees(units: Seq<LogicalUnit>, n: int) -> Seq<HtmlView>
    decreases n,
{
    let m = graph_of(unit_ids(units));
    if 0 < n <= roots_of(m).len() {
        root_trees(units, n - 1) + unit_tree(units, roots_of(m)[n - 1])
    } else {
        Seq::empty()
    }
}

/// The site of a list of units: a page titled `Context` with a definition
/// list of the roots of the graph of the units, each with its children.
pub open spec fn site_of(units: Seq<LogicalUnit>) -> HtmlView {
    HtmlView::Tag(
        "html"@,
        Seq::empty(),
        seq![
            HtmlView::Tag("head"@, Seq::empty(), seq![titled("title"@, "Context"@)]),
            HtmlView::Tag(
                "body"@,
                Seq::empty(),
                seq![
                    HtmlView::Tag(
                        "dl"@,
                        Seq::empty(),
                        root_trees(units, roots_of(graph_of(unit_ids(units))).len() as int),
                    ),
                ],
            ),
        ],
    )
}

/// A list of one piece.
fn one(html: Html) -> (r: Vec<Html>)
    ensures
        htmls_view(r@) == seq![html@],
{
    let mut r: Vec<Html> = Vec::new();
    r.push(html);
    proof {
        lemma_htmls_view(r@);
        assert(htmls_view(r@) =~= seq![html@]);
    }
    r
}

/// An element without attributes that holds one text.
fn titled_tag(tag: &str, text: &str) -> (r: Html)
    ensures
        r@ == titled(tag@, text@),
{
    let attrs: Vec<(String, String)> = Vec::new();
    assert(attrs_view(attrs@) =~= Seq::empty());
    Html::tag(tag, attrs, one(Html::txt(text)))
}

/// A list of one attribute.
fn one_attr(name: &str, value: &str) -> (r: Vec<(String, String)>)
    ensures
        attrs_view(r@) == seq![(name@, value@)],
{
    let mut r: Vec<(String, String)> = Vec::new();
    r.push(attr(name, value));
    assert(attrs_view(r@) =~= seq![(name@, value@)]);
    r
}

/// No attributes.
fn no_attrs() -> (r: Vec<(String, String)>)
    ensures
        attrs_view(r@) == Seq::<(Seq<char>, Seq<char>)>::empty(),
{
    let r: Vec<(String, String)> = Vec::new();
    assert(attrs_view(r@) =~= Seq::empty());
    r
}

/// The term and the definition of the unit of a node, with the units that
/// implement it below.
#[verifier::loop_isolation(false)]
pub fn unit_tree_html(node: usize, graph: &UnitGraph) -> (r: Vec<Html>)
    requires
        node < graph@.nodes.len(),
    ensures
        htmls_view(r@) == unit_tree(graph.units(), node as int),
    decreases depth_left(unit_ids(graph.units()), node as int),
{
    let ghost units = graph.units();
    let ghost ids = unit_ids(units);
    let ghost m = graph_of(ids);
    let parent = graph.unit(node);
    let id = parent.id.to_string();
    let content = Html::tag(
        "p",
        one_attr("class", "content"),
        one(Html::txt(parent.content.as_str())),
    );
    let children = graph.children(node);
    proof {
        lemma_children_are_deeper(ids, node as int);
        lemma_nodes_are_the_ids(ids);
        lemma_longest(ids, ids.len() as int);
        assert(node_units(children@).len() == children@.len());
    }
    let mut items: Vec<Html> = Vec::new();
    let mut k: usize = 0;
    proof {
        lemma_htmls_view(items@);
        assert(htmls_view(items@) =~= unit_trees(units, node as int, 0));
    }
    while k < children.len()
        invariant
            k <= children.len(),
            htmls_view(items@) == unit_trees(units, node as int, k as int),
        decreases children.len() - k,
    {
        proof {
            let child = children_of(m, node as int)[k as int];
            assert(child == node_units(children@)[k as int]);
            assert(0 <= m.nodes[child] < ids.len());
            assert(0 <= m.nodes[node as int] < ids.len());
            assert(ids[m.nodes[child]].len() <= longest(ids, ids.len() as int));
            assert(ids[m.nodes[node as int]].len() <= longest(ids, ids.len() as int));
            assert(depth_left(ids, child) < depth_left(ids, node as int));
        }
        let mut more = unit_tree_html(children[k], graph);
        proof {
            lemma_htmls_view_add(items@, more@);
        }
        items.append(&mut more);
        k += 1;
    }
    let empty = items.len() == 0;
    proof {
        lemma_htmls_view(items@);
    }
    let mut inner = one(content);
    if !empty {
        let mut list: Vec<Html> = one(titled_tag("summary", "Implemented by..."));
        let mut rest = one(Html::tag("dl", no_attrs(), items));
        proof {
            lemma_htmls_view_add(list@, rest@);
        }
        list.append(&mut rest);
        let mut details = one(Html::tag("details", one_attr("class", "implementations"), list));
        proof {
            lemma_htmls_view_add(inner@, details@);
            assert(seq![titled("summary"@, "Implemented by..."@)] + seq![
                HtmlView::Tag("dl"@, Seq::empty(), unit_trees(units, node as int, children@.len() as int)),
            ] =~= seq![
                titled("summary"@, "Implemented by..."@),
                HtmlView::Tag("dl"@, Seq::empty(), unit_trees(units, node as int, children@.len() as int)),
            ]);
        }
        inner.append(&mut details);
    } else {
        assert(htmls_view(inner@) + Seq::<HtmlView>::empty() =~= htmls_view(inner@));
    }
    let mut r = one(Html::tag("dt", one_attr("id", id.as_str()), one(titled_tag("strong", id.as_str()))));
    let mut definition = one(Html::tag("dd", no_attrs(), inner));
    proof {
        lemma_htmls_view_add(r@, definition@);
    }
    r.append(&mut definition);
    proof {
        assert(htmls_view(r@) =~= unit_tree(units, node as int));
    }
    r
}

impl Html {
    /// The site of a graph of units: a page titled `Context` with a
    /// definition list of the roots of the graph, each with the units that
    /// implement it below.
    pub fn from(graph: &UnitGraph) -> (r: Html)
        ensures
            r@ == site_of(graph.units()),
    {
        let ghost units = graph.units();
        let roots = graph.roots();
        let mut unit_tree: Vec<Html> = Vec::new();
        let mut k: usize = 0;
        proof {
            lemma_htmls_view(unit_tree@);
            assert(htmls_view(unit_tree@) =~= root_trees(units, 0));
            assert(node_units(roots@).len() == roots@.len());
        }
        while k < roots.len()
            invariant
                k <= roots.len(),
                units == graph.units(),
                graph.wf(),
                node_units(roots@) == roots_of(graph@),
                forall|j: int| 0 <= j < roots@.len() ==> #[trigger] roots@[j] < graph@.nodes.len(),
                htmls_view(unit_tree@) == root_trees(units, k as int),
            decreases roots.len() - k,
        {
            assert(node_units(roots@)[k as int] == roots@[k as int]);
            let mut more = unit_tree_html(roots[k], graph);
            proof {
                lemma_htmls_view_add(unit_tree@, more@);
            }
            unit_tree.append(&mut more);
            k += 1;
        }
        assert(node_units(roots@).len() == roots@.len());
        let head = Html::tag("head", no_attrs(), one(titled_tag("title", "Context")));
        let body = Html::tag("body", no_attrs(), one(Html::tag("dl", no_attrs(), unit_tree)));
        let mut inner = one(head);
        let mut rest = one(body);
        proof {
            lemma_htmls_view_add(inner@, rest@);
        }
        inner.append(&mut rest);
        let r = Html::tag("html", no_attrs(), inner);
        proof {
            assert(seq![
                HtmlView::Tag("head"@, Seq::empty(), seq![titled("title"@, "Context"@)]),
            ] + seq![
                HtmlView::Tag(
                    "body"@,
                    Seq::empty(),
                    seq![HtmlView::Tag("dl"@, Seq::empty(), root_trees(units, roots@.len() as int))],
                ),
            ] =~= seq![
                HtmlView::Tag("head"@, Seq::empty(), seq![titled("title"@, "Context"@)]),
                HtmlView::Tag(
                    "body"@,
                    Seq::empty(),
                    seq![HtmlView::Tag("dl"@, Seq::empty(), root_trees(units, roots@.len() as int))],
                ),
            ]);
        }
        r
    }
}

} // verus!
