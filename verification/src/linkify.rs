//! Linkification: anchoring the definitions of logical units and linking
//! the references to them.
//!
//! A definition term `<dt>|FOO.1::BAR.1|</dt>` becomes
//! `<dt><span id="FOO.1::BAR.1">|FOO.1::BAR.1|</span></dt>`, and a reference
//! `[FOO.1::BAR.1]` in a text becomes
//! `<a href="path/to/file#FOO.1::BAR.1">FOO.1::BAR.1</a>`.

use vstd::prelude::*;
use crate::dom::{html_text, parse_html, parsed_document, to_html, written};
use crate::grammar::{lemma_scan_id_sound, scan_id};
use crate::dom::lemma_tidy_is_written_as_it_is;
use crate::markup::{
    are_tidy, attributes_hold, copy_attributes, has_attribute, html_name, is_tidy,
    lemma_are_tidy, lemma_are_tidy_add, lemma_markups_view, lemma_markups_view_add,
    markups_view, plain_attribute, Attribute, AttributeView, Markup, MarkupView, NameView,
};
use crate::parser::{
    find_logical_unit_refs, find_refs, is_definiendum, logical_unit_definiendum, read_id,
    segments_view, Segment, UnitRefSearch,
};
use crate::text::{chars_of, replace_all, replaced, same_text, string_of_range, strings_view};

verus! {

/// Whether an element with this name is a definition term.
pub open spec fn is_term(name: NameView) -> bool {
    name.local == "dt"@
}

/// Whether an element with these attributes is anchored: it carries an
/// `id`.
pub open spec fn is_anchored(attributes: Seq<AttributeView>) -> bool {
    has_attribute(attributes, "id"@)
}

/// The identifier that `node` defines nakedly, if it does. See
/// [`naked_id_in`].
pub open spec fn naked_id(node: MarkupView) -> Option<Seq<char>>
    decreases node, 0nat,
{
    match node {
        MarkupView::Text(text) => if is_definiendum(text) {
            Some(text.subrange(1, text.len() - 1))
        } else {
            None
        },
        MarkupView::Element(_, attributes, children) => if is_anchored(attributes) {
            None
        } else {
            naked_id_in(children)
        },
        _ => None,
    }
}

/// The identifier that these children define nakedly, if they do: there is
/// exactly one child, and it is a text that is a definiendum, or an element
/// that is not anchored and whose children define the identifier nakedly
/// in turn. Several children, an anchored element on the way down, or a
/// text that is no definiendum give nothing.
pub open spec fn naked_id_in(children: Seq<MarkupView>) -> Option<Seq<char>>
    decreases children, 1nat,
{
    if children.len() == 1 {
        naked_id(children[0])
    } else {
        None
    }
}

/// The element that anchors the identifier `id`: a `span` with that `id`
/// around `children`.
pub open spec fn anchor(id: Seq<char>, children: Seq<MarkupView>) -> MarkupView {
    MarkupView::Element(html_name("span"@), seq![plain_attribute("id"@, id)], children)
}

/// `node` with each naked definition term below it anchored: the child of
/// the term is moved into an anchor, and the anchor is the child of the
/// term. Terms that are anchored stay as they are.
pub open spec fn anchored(node: MarkupView) -> MarkupView
    decreases node, 0nat,
{
    match node {
        MarkupView::Element(name, attributes, children) => if is_term(name) && naked_id_in(
            children,
        ) is Some {
            MarkupView::Element(
                name,
                attributes,
                seq![anchor(naked_id_in(children).unwrap(), anchored_all(children))],
            )
        } else {
            MarkupView::Element(name, attributes, anchored_all(children))
        },
        MarkupView::Root(children) => MarkupView::Root(anchored_all(children)),
        _ => node,
    }
}

/// Each of `nodes` with its naked definition terms anchored.
pub open spec fn anchored_all(nodes: Seq<MarkupView>) -> Seq<MarkupView>
    decreases nodes, 1nat,
{
    if nodes.len() == 0 {
        Seq::empty()
    } else {
        anchored_all(nodes.drop_last()).push(anchored(nodes.last()))
    }
}

/// Anchoring a list anchors each of its nodes.
pub proof fn lemma_anchored_all(nodes: Seq<MarkupView>)
    ensures
        anchored_all(nodes).len() == nodes.len(),
        forall|i: int| 0 <= i < nodes.len() ==> anchored_all(nodes)[i] == anchored(
            #[trigger] nodes[i],
        ),
    decreases nodes.len(),
{
    if nodes.len() > 0 {
        lemma_anchored_all(nodes.drop_last());
        assert forall|i: int| 0 <= i < nodes.len() implies anchored_all(nodes)[i] == anchored(
            #[trigger] nodes[i],
        ) by {
            if i < nodes.len() - 1 {
                assert(nodes.drop_last()[i] == nodes[i]);
            }
        }
    }
}

/// Anchoring makes nothing naked: what defined no identifier nakedly
/// before still defines none after.
pub proof fn lemma_anchoring_bares_nothing(node: MarkupView)
    requires
        naked_id(node) is None,
    ensures
        naked_id(anchored(node)) is None,
    decreases node,
{
    match node {
        MarkupView::Element(name, attributes, children) => {
            lemma_anchored_all(children);
            if is_anchored(attributes) {
            } else if is_term(name) && naked_id_in(children) is Some {
            } else {
                if children.len() == 1 {
                    lemma_anchoring_bares_nothing(children[0]);
                }
            }
        },
        _ => {},
    }
}

/// Anchoring is idempotent: anchoring what was anchored changes nothing.
pub proof fn lemma_anchoring_is_idempotent(node: MarkupView)
    ensures
        anchored(anchored(node)) == anchored(node),
    decreases node, 0nat,
{
    match node {
        MarkupView::Element(name, attributes, children) => {
            lemma_anchoring_all_is_idempotent(children);
            lemma_anchored_all(children);
            let kids = anchored_all(children);
            if is_term(name) && naked_id_in(children) is Some {
                let id = naked_id_in(children).unwrap();
                let wrapper = anchor(id, kids);
                let once = MarkupView::Element(name, attributes, seq![wrapper]);
                assert(anchored(node) == once);
                assert(is_anchored(seq![plain_attribute("id"@, id)])) by {
                    assert(seq![plain_attribute("id"@, id)][0].name.local == "id"@);
                }
                assert(naked_id_in(seq![wrapper]) is None);
                assert(!is_term(html_name("span"@))) by {
                    reveal_strlit("span");
                    reveal_strlit("dt");
                    assert("span"@.len() == 4);
                    assert("dt"@.len() == 2);
                }
                assert(anchored(wrapper) == anchor(id, anchored_all(kids)));
                lemma_anchored_all(seq![wrapper]);
                assert(anchored_all(seq![wrapper]) =~= seq![wrapper]);
            } else {
                let once = MarkupView::Element(name, attributes, kids);
                assert(anchored(node) == once);
                if is_term(name) {
                    assert(naked_id_in(kids) is None) by {
                        if children.len() == 1 {
                            lemma_anchoring_bares_nothing(children[0]);
                        }
                    }
                }
            }
        },
        MarkupView::Root(children) => {
            lemma_anchoring_all_is_idempotent(children);
        },
        _ => {},
    }
}

/// Anchoring is idempotent on each node of a list.
pub proof fn lemma_anchoring_all_is_idempotent(nodes: Seq<MarkupView>)
    ensures
        anchored_all(anchored_all(nodes)) == anchored_all(nodes),
    decreases nodes, 1nat,
{
    lemma_anchored_all(nodes);
    lemma_anchored_all(anchored_all(nodes));
    assert forall|i: int| 0 <= i < nodes.len() implies anchored_all(anchored_all(nodes))[i]
        == anchored_all(nodes)[i] by {
        lemma_anchoring_is_idempotent(nodes[i]);
    }
    assert(anchored_all(anchored_all(nodes)) =~= anchored_all(nodes));
}

/// Whether an element with this name is a definition term.
pub fn is_definition_term(name: &crate::markup::QualifiedName) -> (b: bool)
    ensures
        b == is_term(name@),
{
    same_text(name.local.as_str(), "dt")
}

/// The identifier that `node` defines nakedly, if it does.
pub fn naked_unit_tag_of(node: &Markup) -> (r: Option<String>)
    ensures
        match r {
            Some(id) => naked_id(node@) == Some(id@),
            None => naked_id(node@) is None,
        },
    decreases *node,
{
    match node {
        Markup::Text(text) => match logical_unit_definiendum(text.as_str()) {
            Ok(id) => Some(id),
            Err(_) => None,
        },
        Markup::Element(_, attributes, children) => {
            if attributes_hold(attributes, "id") {
                None
            } else {
                proof {
                    lemma_markups_view(children@);
                }
                if children.len() == 1 {
                    naked_unit_tag_of(&children[0])
                } else {
                    None
                }
            }
        },
        _ => None,
    }
}

/// The identifier that a term with these children defines nakedly, if it
/// does: `|FOO.1|` and `<em>|FOO.1|</em>` define `FOO.1` nakedly,
/// `<a id="FOO.1">|FOO.1|</a>` defines nothing nakedly.
pub fn as_naked_unit_tag(children: &Vec<Markup>) -> (r: Option<String>)
    ensures
        match r {
            Some(id) => naked_id_in(markups_view(children@)) == Some(id@),
            None => naked_id_in(markups_view(children@)) is None,
        },
{
    proof {
        lemma_markups_view(children@);
    }
    if children.len() == 1 {
        naked_unit_tag_of(&children[0])
    } else {
        None
    }
}

/// The element that anchors the identifier `id` around `children`.
pub fn new_anchor_span(id: &str, children: Vec<Markup>) -> (r: Markup)
    ensures
        r@ == anchor(id@, markups_view(children@)),
{
    let mut attributes: Vec<Attribute> = Vec::new();
    attributes.push(Attribute::plain("id", id));
    proof {
        assert(crate::markup::attributes_view(attributes@) =~= seq![plain_attribute("id"@, id@)]);
    }
    Markup::element("span", attributes, children)
}

/// Anchors each of `nodes`.
#[verifier::loop_isolation(false)]
fn anchor_all(nodes: &Vec<Markup>) -> (r: Vec<Markup>)
    ensures
        markups_view(r@) == anchored_all(markups_view(nodes@)),
    decreases nodes,
{
    let mut r: Vec<Markup> = Vec::new();
    let mut i: usize = 0;
    proof {
        lemma_markups_view(nodes@);
        lemma_anchored_all(markups_view(nodes@));
    }
    while i < nodes.len()
        invariant
            i <= nodes.len(),
            r@.len() == i,
            forall|k: int| 0 <= k < i ==> (#[trigger] r@[k])@ == anchored(nodes@[k]@),
        decreases nodes.len() - i,
    {
        r.push(anchor_terms(&nodes[i]));
        i += 1;
    }
    proof {
        lemma_markups_view(r@);
        lemma_markups_view(nodes@);
        lemma_anchored_all(markups_view(nodes@));
        assert forall|k: int| 0 <= k < nodes@.len() implies markups_view(r@)[k] == anchored_all(
            markups_view(nodes@),
        )[k] by {
            assert(markups_view(r@)[k] == r@[k]@);
            assert(markups_view(nodes@)[k] == nodes@[k]@);
        }
        assert(markups_view(r@) =~= anchored_all(markups_view(nodes@)));
    }
    r
}

/// Anchors the naked definition terms of a document.
///
/// Each element `dt` whose child defines an identifier nakedly gets an
/// anchor for the identifier around that child. Everything else stays as it
/// is, so that a second run changes nothing.
pub fn anchor_terms(node: &Markup) -> (r: Markup)
    ensures
        r@ == anchored(node@),
    decreases *node,
{
    match node {
        Markup::Element(name, attributes, children) => {
            let kids = anchor_all(children);
            if is_definition_term(name) {
                match as_naked_unit_tag(children) {
                    Some(id) => {
                        let anchor = new_anchor_span(id.as_str(), kids);
                        let mut only: Vec<Markup> = Vec::new();
                        only.push(anchor);
                        proof {
                            lemma_markups_view(only@);
                            assert(markups_view(only@) =~= seq![only@[0]@]);
                        }
                        Markup::Element(name.copy(), copy_attributes(attributes), only)
                    },
                    None => Markup::Element(name.copy(), copy_attributes(attributes), kids),
                }
            } else {
                Markup::Element(name.copy(), copy_attributes(attributes), kids)
            }
        },
        Markup::Root(children) => Markup::Root(anchor_all(children)),
        Markup::Text(_) => node.copy(),
        _ => node.copy(),
    }
}

/// Where the units of a context are to be found: for each identifier the
/// location that a reference to it links to.
#[derive(Debug, Clone, PartialEq, Eq)]
pub struct UnitLocations {
    entries: Vec<(String, String)>,
}

/// A table of locations, as specifications see it: pairs of an identifier
/// and its location.
pub type LocationsView = Seq<(Seq<char>, Seq<char>)>;

impl View for UnitLocations {
    type V = LocationsView;

    closed spec fn view(&self) -> LocationsView {
        Seq::new(self.entries@.len(), |i: int| (self.entries@[i].0@, self.entries@[i].1@))
    }
}

/// The location of `id` in the entries of `table` from `k` on: that of the
/// first entry for `id`.
pub open spec fn location_from(table: LocationsView, id: Seq<char>, k: int) -> Option<Seq<char>>
    decreases table.len() - k,
{
    if 0 <= k < table.len() {
        if table[k].0 == id {
            Some(table[k].1)
        } else {
            location_from(table, id, k + 1)
        }
    } else {
        None
    }
}

impl UnitLocations {
    /// A table without entries.
    pub fn new() -> (r: UnitLocations)
        ensures
            r@.len() == 0,
    {
        UnitLocations { entries: Vec::new() }
    }

    /// Adds the location of a unit. The first location given for an
    /// identifier is the one that is found.
    pub fn add(&mut self, id: &str, location: &str)
        ensures
            final(self)@ == old(self)@.push((id@, location@)),
    {
        self.entries.push((id.to_owned(), location.to_owned()));
        assert(self@ =~= old(self)@.push((id@, location@)));
    }

    /// The location of the unit `id`, if the table holds one.
    pub fn get_path(&self, id: &str) -> (r: Option<String>)
        ensures
            match r {
                Some(location) => location_from(self@, id@, 0) == Some(location@),
                None => location_from(self@, id@, 0) is None,
            },
    {
        let mut k: usize = 0;
        while k < self.entries.len()
            invariant
                k <= self.entries.len(),
                location_from(self@, id@, 0) == location_from(self@, id@, k as int),
            decreases self.entries.len() - k,
        {
            if same_text(self.entries[k].0.as_str(), id) {
                return Some(self.entries[k].1.clone());
            }
            k += 1;
        }
        None
    }
}

/// The location of a unit in a repo: the URL of the repo, the path of the
/// file of the unit on the branch of the repo, or on `master` where no
/// branch is known, and the fragment of the unit.
pub open spec fn unit_path_text(
    repo: crate::repo::LocationView,
    file: Option<Seq<char>>,
    tag: Seq<char>,
) -> Seq<char> {
    (match repo.upstream {
        Some(url) => crate::repo::normalized_repo_url(url),
        None => repo.path,
    }) + "/blob/"@ + (match repo.branch {
        Some(branch) => branch,
        None => "master"@,
    }) + "/"@ + (match file {
        Some(file) => file,
        None => Seq::empty(),
    }) + "#"@ + tag
}

/// The location of the unit `tag`, found in `file` of `repo`:
/// `https://github.com/owner/project/blob/main/docs/units.md#FOO.1`.
pub fn unit_path(repo: &crate::repo::Repo, file: Option<&str>, tag: &str) -> (r: String)
    ensures
        r@ == unit_path_text(repo@, crate::artifact::str_view(file), tag@),
{
    let mut url = repo.get_url();
    url.push_str("/blob/");
    match repo.get_branch() {
        Some(branch) => url.push_str(branch.as_str()),
        None => url.push_str("master"),
    }
    url.push('/');
    proof {
        reveal_strlit("/");
        assert("/"@ =~= seq!['/']);
    }
    match file {
        Some(file) => url.push_str(file),
        None => {},
    }
    url.push('#');
    proof {
        reveal_strlit("#");
        assert("#"@ =~= seq!['#']);
    }
    url.push_str(tag);
    assert(url@ =~= unit_path_text(repo@, crate::artifact::str_view(file), tag@));
    url
}

/// What can stop linkification.
#[derive(Debug, Clone, PartialEq, Eq)]
pub enum LinkifyError {
    /// A reference names a unit of which no location is known.
    UnitNotFound(String),
}

impl LinkifyError {
    /// A message that names the cause.
    pub fn to_string(&self) -> (r: String)
        ensures
            r@ == match self {
                LinkifyError::UnitNotFound(id) => "No location is known for the logical unit "@
                    + id@,
            },
    {
        match self {
            LinkifyError::UnitNotFound(id) => {
                let mut r = "No location is known for the logical unit ".to_owned();
                r.push_str(id.as_str());
                r
            },
        }
    }
}

/// The reference to the fragment of a unit in the same document: `#id`.
pub open spec fn id_ref(tag: Seq<char>) -> Seq<char> {
    "#"@ + tag
}

/// The reference to the fragment of a unit in the same document:
/// `FOO.1` gives `#FOO.1`.
pub fn tag_to_id_ref(tag: &str) -> (r: String)
    ensures
        r@ == id_ref(tag@),
{
    let mut id_ref = "#".to_owned();
    id_ref.push_str(tag);
    id_ref
}

/// Where a reference to `id` links to: the location that the table holds
/// for it, or, without a table, its fragment in the same document.
pub open spec fn resolved(table: Option<LocationsView>, id: Seq<char>) -> Option<Seq<char>> {
    match table {
        Some(entries) => location_from(entries, id, 0),
        None => Some(id_ref(id)),
    }
}

/// The link to a unit: an element `a` that refers to `url` and shows the
/// identifier.
pub open spec fn link(url: Seq<char>, id: Seq<char>) -> MarkupView {
    MarkupView::Element(
        html_name("a"@),
        seq![plain_attribute("href"@, url)],
        seq![MarkupView::Text(id)],
    )
}

/// The node that stands for a piece of a text: the text itself, or the
/// link to the unit that a reference names.
pub open spec fn segment_node(segment: Segment, table: Option<LocationsView>) -> MarkupView {
    match segment {
        Segment::Text(text) => MarkupView::Text(text),
        Segment::Ref(id) => link(
            match resolved(table, id) {
                Some(url) => url,
                None => Seq::empty(),
            },
            id,
        ),
    }
}

/// The nodes that stand for the pieces of a text, in order.
pub open spec fn segment_nodes(segments: Seq<Segment>, table: Option<LocationsView>) -> Seq<
    MarkupView,
> {
    Seq::new(segments.len(), |i: int| segment_node(segments[i], table))
}

/// The first reference among the pieces from `k` on that the table has no
/// location for.
pub open spec fn unresolved_from(
    segments: Seq<Segment>,
    table: Option<LocationsView>,
    k: int,
) -> Option<Seq<char>>
    decreases segments.len() - k,
{
    if 0 <= k < segments.len() {
        match segments[k] {
            Segment::Ref(id) => if resolved(table, id) is None {
                Some(id)
            } else {
                unresolved_from(segments, table, k + 1)
            },
            Segment::Text(_) => unresolved_from(segments, table, k + 1),
        }
    } else {
        None
    }
}

/// The nodes that take the place of `node` when its references are linked:
/// for a text that holds references, its pieces; for any other node, the
/// node with the references below it linked.
pub open spec fn linked(node: MarkupView, table: Option<LocationsView>) -> Seq<MarkupView>
    decreases node, 0nat,
{
    match node {
        MarkupView::Text(text) => match find_refs(text) {
            Some(segments) => segment_nodes(segments, table),
            None => seq![node],
        },
        MarkupView::Element(name, attributes, children) => seq![
            MarkupView::Element(name, attributes, linked_all(children, table)),
        ],
        MarkupView::Root(children) => seq![MarkupView::Root(linked_all(children, table))],
        _ => seq![node],
    }
}

/// The nodes that take the place of `nodes` when their references are
/// linked: those of each node, in order.
pub open spec fn linked_all(nodes: Seq<MarkupView>, table: Option<LocationsView>) -> Seq<
    MarkupView,
>
    decreases nodes, 1nat,
{
    if nodes.len() == 0 {
        Seq::empty()
    } else {
        linked_all(nodes.drop_last(), table) + linked(nodes.last(), table)
    }
}

/// The first reference in `node`, in the order of the document, that the
/// table has no location for.
pub open spec fn unresolved(node: MarkupView, table: Option<LocationsView>) -> Option<Seq<char>>
    decreases node, 0nat,
{
    match node {
        MarkupView::Text(text) => match find_refs(text) {
            Some(segments) => unresolved_from(segments, table, 0),
            None => None,
        },
        MarkupView::Element(_, _, children) => unresolved_in(children, table),
        MarkupView::Root(children) => unresolved_in(children, table),
        _ => None,
    }
}

/// The first reference in `nodes`, in the order of the document, that the
/// table has no location for.
pub open spec fn unresolved_in(nodes: Seq<MarkupView>, table: Option<LocationsView>) -> Option<
    Seq<char>,
>
    decreases nodes, 1nat,
{
    if nodes.len() == 0 {
        None
    } else if unresolved_in(nodes.drop_last(), table) is Some {
        unresolved_in(nodes.drop_last(), table)
    } else {
        unresolved(nodes.last(), table)
    }
}

/// Linking the references of a list of nodes links those of each part of
/// the list by itself: what follows a text that was rewritten is rewritten
/// as if it stood alone.
pub proof fn lemma_linked_all_add(
    a: Seq<MarkupView>,
    b: Seq<MarkupView>,
    table: Option<LocationsView>,
)
    ensures
        linked_all(a + b, table) == linked_all(a, table) + linked_all(b, table),
    decreases b.len(),
{
    if b.len() == 0 {
        assert(a + b =~= a);
        assert(linked_all(a, table) + linked_all(b, table) =~= linked_all(a, table));
    } else {
        assert((a + b).drop_last() =~= a + b.drop_last());
        assert((a + b).last() == b.last());
        lemma_linked_all_add(a, b.drop_last(), table);
        assert((linked_all(a, table) + linked_all(b.drop_last(), table)) + linked(b.last(), table)
            =~= linked_all(a, table) + (linked_all(b.drop_last(), table) + linked(
            b.last(),
            table,
        )));
    }
}

/// Without a table every reference is resolved, to its fragment in the
/// same document.
pub proof fn lemma_fragments_always_resolve(node: MarkupView)
    ensures
        unresolved(node, None) is None,
    decreases node, 0nat,
{
    match node {
        MarkupView::Text(text) => {
            if find_refs(text) is Some {
                lemma_fragments_resolve_from(find_refs(text).unwrap(), 0);
            }
        },
        MarkupView::Element(_, _, children) => {
            lemma_fragments_always_resolve_in(children);
        },
        MarkupView::Root(children) => {
            lemma_fragments_always_resolve_in(children);
        },
        _ => {},
    }
}

proof fn lemma_fragments_resolve_from(segments: Seq<Segment>, k: int)
    ensures
        unresolved_from(segments, None, k) is None,
    decreases segments.len() - k,
{
    if 0 <= k < segments.len() {
        lemma_fragments_resolve_from(segments, k + 1);
    }
}

/// Without a table every reference of a list of nodes is resolved.
pub proof fn lemma_fragments_always_resolve_in(nodes: Seq<MarkupView>)
    ensures
        unresolved_in(nodes, None) is None,
    decreases nodes, 1nat,
{
    if nodes.len() > 0 {
        lemma_fragments_always_resolve_in(nodes.drop_last());
        lemma_fragments_always_resolve(nodes.last());
    }
}

/// The view of an optional table.
pub open spec fn table_view(table: Option<&UnitLocations>) -> Option<LocationsView> {
    match table {
        Some(t) => Some(t@),
        None => None,
    }
}

/// The link to a unit: an element `a` that refers to `url` and shows the
/// identifier.
pub fn new_link(url: &str, tag: &str) -> (r: Markup)
    ensures
        r@ == link(url@, tag@),
{
    let mut attributes: Vec<Attribute> = Vec::new();
    attributes.push(Attribute::plain("href", url));
    let mut children: Vec<Markup> = Vec::new();
    children.push(Markup::text(tag));
    proof {
        assert(crate::markup::attributes_view(attributes@) =~= seq![plain_attribute("href"@, url@)]);
        lemma_markups_view(children@);
        assert(markups_view(children@) =~= seq![MarkupView::Text(tag@)]);
    }
    Markup::element("a", attributes, children)
}

/// The nodes that stand for the pieces of a text.
///
/// Fails with the first reference that the table has no location for.
pub fn link_segments(segments: &Vec<UnitRefSearch>, table: Option<&UnitLocations>) -> (r: Result<
    Vec<Markup>,
    LinkifyError,
>)
    ensures
        match r {
            Ok(nodes) => unresolved_from(segments_view(segments@), table_view(table), 0) is None
                && markups_view(nodes@) == segment_nodes(
                segments_view(segments@),
                table_view(table),
            ),
            Err(LinkifyError::UnitNotFound(id)) => unresolved_from(
                segments_view(segments@),
                table_view(table),
                0,
            ) == Some(id@),
        },
{
    let ghost sv = segments_view(segments@);
    let ghost tv = table_view(table);
    let mut nodes: Vec<Markup> = Vec::new();
    let mut k: usize = 0;
    while k < segments.len()
        invariant
            sv == segments_view(segments@),
            tv == table_view(table),
            k <= segments.len(),
            nodes@.len() == k,
            unresolved_from(sv, tv, 0) == unresolved_from(sv, tv, k as int),
            forall|j: int| 0 <= j < k ==> (#[trigger] nodes@[j])@ == segment_node(sv[j], tv),
        decreases segments.len() - k,
    {
        assert(sv[k as int] == segments@[k as int]@);
        match &segments[k] {
            UnitRefSearch::Text(text) => {
                nodes.push(Markup::text(text.as_str()));
            },
            UnitRefSearch::Ref(id) => {
                let url = match table {
                    None => Some(tag_to_id_ref(id.as_str())),
                    Some(t) => t.get_path(id.as_str()),
                };
                match url {
                    Some(url) => {
                        nodes.push(new_link(url.as_str(), id.as_str()));
                    },
                    None => {
                        return Err(LinkifyError::UnitNotFound(id.clone()));
                    },
                }
            },
        }
        k += 1;
    }
    proof {
        lemma_markups_view(nodes@);
        assert forall|j: int| 0 <= j < nodes@.len() implies markups_view(nodes@)[j]
            == segment_nodes(sv, tv)[j] by {
            assert(markups_view(nodes@)[j] == nodes@[j]@);
        }
        assert(markups_view(nodes@) =~= segment_nodes(sv, tv));
    }
    Ok(nodes)
}

/// Links the references of each of `nodes`.
#[verifier::loop_isolation(false)]
fn link_all(nodes: &Vec<Markup>, table: Option<&UnitLocations>) -> (r: Result<
    Vec<Markup>,
    LinkifyError,
>)
    ensures
        match r {
            Ok(out) => unresolved_in(markups_view(nodes@), table_view(table)) is None
                && markups_view(out@) == linked_all(markups_view(nodes@), table_view(table)),
            Err(LinkifyError::UnitNotFound(id)) => unresolved_in(
                markups_view(nodes@),
                table_view(table),
            ) == Some(id@),
        },
    decreases nodes,
{
    let ghost tv = table_view(table);
    let ghost all = markups_view(nodes@);
    let mut out: Vec<Markup> = Vec::new();
    let mut i: usize = 0;
    proof {
        lemma_markups_view(nodes@);
        assert(all.take(0) =~= Seq::<MarkupView>::empty());
        assert(markups_view(out@) =~= Seq::<MarkupView>::empty());
    }
    while i < nodes.len()
        invariant
            i <= nodes.len(),
            unresolved_in(all.take(i as int), tv) is None,
            markups_view(out@) == linked_all(all.take(i as int), tv),
        decreases nodes.len() - i,
    {
        proof {
            assert(all.take(i + 1).drop_last() =~= all.take(i as int));
            assert(all.take(i + 1).last() == nodes@[i as int]@);
        }
        match link_refs(&nodes[i], table) {
            Ok(mut more) => {
                proof {
                    lemma_markups_view_add(out@, more@);
                }
                out.append(&mut more);
            },
            Err(e) => {
                proof {
                    lemma_unresolved_in_prefix(all, tv, i + 1);
                }
                return Err(e);
            },
        }
        i += 1;
    }
    proof {
        assert(all.take(nodes@.len() as int) =~= all);
    }
    Ok(out)
}

/// A reference that is unresolved in the first nodes of a list is the
/// first that is unresolved in the list.
pub proof fn lemma_unresolved_in_prefix(nodes: Seq<MarkupView>, table: Option<LocationsView>, n: int)
    requires
        0 <= n <= nodes.len(),
        unresolved_in(nodes.take(n), table) is Some,
    ensures
        unresolved_in(nodes, table) == unresolved_in(nodes.take(n), table),
    decreases nodes.len() - n,
{
    if n < nodes.len() {
        assert(nodes.take(n + 1).drop_last() =~= nodes.take(n));
        lemma_unresolved_in_prefix(nodes, table, n + 1);
    } else {
        assert(nodes.take(n) =~= nodes);
    }
}

/// Links the references in the texts of `node`.
///
/// Gives the nodes that take the place of `node`: for a text that holds
/// references, the pieces of the text with a link for each reference; for
/// any other node, the node itself with the references below it linked.
/// Fails with the first reference, in the order of the document, that the
/// table has no location for.
pub fn link_refs(node: &Markup, table: Option<&UnitLocations>) -> (r: Result<
    Vec<Markup>,
    LinkifyError,
>)
    ensures
        match r {
            Ok(out) => unresolved(node@, table_view(table)) is None && markups_view(out@)
                == linked(node@, table_view(table)),
            Err(LinkifyError::UnitNotFound(id)) => unresolved(node@, table_view(table)) == Some(
                id@,
            ),
        },
    decreases *node,
{
    let mut out: Vec<Markup> = Vec::new();
    match node {
        Markup::Text(text) => {
            match find_logical_unit_refs(text.as_str()) {
                Some(segments) => {
                    return link_segments(&segments, table);
                },
                None => {
                    out.push(node.copy());
                },
            }
        },
        Markup::Element(name, attributes, children) => {
            match link_all(children, table) {
                Ok(kids) => {
                    out.push(Markup::Element(name.copy(), copy_attributes(attributes), kids));
                },
                Err(e) => {
                    return Err(e);
                },
            }
        },
        Markup::Root(children) => {
            match link_all(children, table) {
                Ok(kids) => {
                    out.push(Markup::Root(kids));
                },
                Err(e) => {
                    return Err(e);
                },
            }
        },
        _ => {
            out.push(node.copy());
        },
    }
    proof {
        lemma_markups_view(out@);
        assert(markups_view(out@) =~= seq![out@[0]@]);
    }
    Ok(out)
}

/// The identifiers of the references among the first `n` pieces of a text,
/// in order.
pub open spec fn segment_ids(segments: Seq<Segment>, n: int) -> Seq<Seq<char>>
    decreases n,
{
    if n <= 0 || n > segments.len() {
        Seq::empty()
    } else {
        match segments[n - 1] {
            Segment::Ref(id) => segment_ids(segments, n - 1).push(id),
            Segment::Text(_) => segment_ids(segments, n - 1),
        }
    }
}

/// The identifiers that the texts of `node` refer to, in the order of the
/// document, each as often as it is referred to.
pub open spec fn referenced(node: MarkupView) -> Seq<Seq<char>>
    decreases node, 0nat,
{
    match node {
        MarkupView::Text(text) => match find_refs(text) {
            Some(segments) => segment_ids(segments, segments.len() as int),
            None => Seq::empty(),
        },
        MarkupView::Element(_, _, children) => referenced_in(children),
        MarkupView::Root(children) => referenced_in(children),
        _ => Seq::empty(),
    }
}

/// The identifiers that the texts of `nodes` refer to, in the order of the
/// document.
pub open spec fn referenced_in(nodes: Seq<MarkupView>) -> Seq<Seq<char>>
    decreases nodes, 1nat,
{
    if nodes.len() == 0 {
        Seq::empty()
    } else {
        referenced_in(nodes.drop_last()) + referenced(nodes.last())
    }
}

/// Adds to `out` the identifiers that the texts of `nodes` refer to.
#[verifier::loop_isolation(false)]
fn collect_references_in(nodes: &Vec<Markup>, out: &mut Vec<String>)
    ensures
        strings_view(final(out)@) == strings_view(old(out)@) + referenced_in(markups_view(nodes@)),
    decreases nodes,
{
    let ghost all = markups_view(nodes@);
    let mut i: usize = 0;
    proof {
        lemma_markups_view(nodes@);
        assert(all.take(0) =~= Seq::<MarkupView>::empty());
        assert(strings_view(out@) + referenced_in(all.take(0)) =~= strings_view(out@));
    }
    while i < nodes.len()
        invariant
            i <= nodes.len(),
            strings_view(out@) == strings_view(old(out)@) + referenced_in(all.take(i as int)),
        decreases nodes.len() - i,
    {
        proof {
            assert(all.take(i + 1).drop_last() =~= all.take(i as int));
            assert(all.take(i + 1).last() == nodes@[i as int]@);
        }
        collect_references(&nodes[i], out);
        proof {
            assert((strings_view(old(out)@) + referenced_in(all.take(i as int))) + referenced(
                nodes@[i as int]@,
            ) =~= strings_view(old(out)@) + (referenced_in(all.take(i as int)) + referenced(
                nodes@[i as int]@,
            )));
        }
        i += 1;
    }
    proof {
        assert(all.take(nodes@.len() as int) =~= all);
    }
}

/// Adds to `out` the identifiers that the texts of `node` refer to.
fn collect_references(node: &Markup, out: &mut Vec<String>)
    ensures
        strings_view(final(out)@) == strings_view(old(out)@) + referenced(node@),
    decreases *node,
{
    match node {
        Markup::Text(text) => {
            match find_logical_unit_refs(text.as_str()) {
                Some(segments) => {
                    let ghost sv = segments_view(segments@);
                    let mut k: usize = 0;
                    assert(strings_view(out@) + segment_ids(sv, 0) =~= strings_view(out@));
                    while k < segments.len()
                        invariant
                            sv == segments_view(segments@),
                            k <= segments.len(),
                            strings_view(out@) == strings_view(old(out)@) + segment_ids(
                                sv,
                                k as int,
                            ),
                        decreases segments.len() - k,
                    {
                        assert(sv[k as int] == segments@[k as int]@);
                        match &segments[k] {
                            UnitRefSearch::Ref(id) => {
                                let ghost before = strings_view(out@);
                                out.push(id.clone());
                                assert(strings_view(out@) =~= before.push(id@));
                                assert(strings_view(old(out)@) + segment_ids(sv, k as int).push(
                                    id@,
                                ) =~= before.push(id@));
                            },
                            UnitRefSearch::Text(_) => {},
                        }
                        k += 1;
                    }
                },
                None => {
                    assert(strings_view(out@) + Seq::<Seq<char>>::empty() =~= strings_view(out@));
                },
            }
        },
        Markup::Element(_, _, children) => collect_references_in(children, out),
        Markup::Root(children) => collect_references_in(children, out),
        _ => {
            assert(strings_view(out@) + Seq::<Seq<char>>::empty() =~= strings_view(out@));
        },
    }
}

/// The identifiers that the texts of a document refer to, in the order of
/// the document, each as often as it is referred to.
pub fn referenced_tags(doc: &Markup) -> (r: Vec<String>)
    ensures
        strings_view(r@) == referenced(doc@),
{
    let mut out: Vec<String> = Vec::new();
    collect_references(doc, &mut out);
    assert(strings_view(Seq::<String>::empty()) + referenced(doc@) =~= referenced(doc@));
    out
}

/// The identifiers that a document given as HTML refers to: those whose
/// locations linkifying the document asks for.
pub fn references_of_html(html: &str) -> (r: Vec<String>)
    ensures
        strings_view(r@) == referenced(parsed_document(html@)),
{
    referenced_tags(&parse_html(html))
}

/// Whether the table has a location for each of the identifiers.
pub open spec fn locates_all(table: LocationsView, ids: Seq<Seq<char>>) -> bool {
    forall|k: int| 0 <= k < ids.len() ==> location_from(table, #[trigger] ids[k], 0) is Some
}

/// The identifier of each reference among the first `n` pieces is among
/// the identifiers of these pieces.
proof fn lemma_segment_ids(segments: Seq<Segment>, n: int, k: int)
    requires
        0 <= k < n <= segments.len(),
        segments[k] is Ref,
    ensures
        segment_ids(segments, n).contains(segments[k]->Ref_0),
    decreases n,
{
    let id = segments[k]->Ref_0;
    if k == n - 1 {
        let ids = segment_ids(segments, n);
        assert(ids[ids.len() - 1] == id);
    } else {
        lemma_segment_ids(segments, n - 1, k);
        let before = segment_ids(segments, n - 1);
        let i = choose|i: int| 0 <= i < before.len() && before[i] == id;
        assert(segment_ids(segments, n)[i] == id);
    }
}

proof fn lemma_located_segments_resolve(segments: Seq<Segment>, table: LocationsView, k: int)
    requires
        0 <= k <= segments.len(),
        locates_all(table, segment_ids(segments, segments.len() as int)),
    ensures
        unresolved_from(segments, Some(table), k) is None,
    decreases segments.len() - k,
{
    if k < segments.len() {
        lemma_located_segments_resolve(segments, table, k + 1);
        if segments[k] is Ref {
            lemma_segment_ids(segments, segments.len() as int, k);
            let ids = segment_ids(segments, segments.len() as int);
            let i = choose|i: int| 0 <= i < ids.len() && ids[i] == segments[k]->Ref_0;
            assert(location_from(table, ids[i], 0) is Some);
        }
    }
}

/// Where the table has a location for each identifier that a document
/// refers to, no reference of the document is unresolved.
pub proof fn lemma_located_references_resolve(node: MarkupView, table: LocationsView)
    requires
        locates_all(table, referenced(node)),
    ensures
        unresolved(node, Some(table)) is None,
    decreases node, 0nat,
{
    match node {
        MarkupView::Text(text) => {
            if find_refs(text) is Some {
                lemma_located_segments_resolve(find_refs(text)->0, table, 0);
            }
        },
        MarkupView::Element(_, _, children) => {
            lemma_located_references_resolve_in(children, table);
        },
        MarkupView::Root(children) => {
            lemma_located_references_resolve_in(children, table);
        },
        _ => {},
    }
}

/// Where the table has a location for each identifier that a list of nodes
/// refers to, no reference of the nodes is unresolved.
pub proof fn lemma_located_references_resolve_in(nodes: Seq<MarkupView>, table: LocationsView)
    requires
        locates_all(table, referenced_in(nodes)),
    ensures
        unresolved_in(nodes, Some(table)) is None,
    decreases nodes, 1nat,
{
    if nodes.len() > 0 {
        let first = referenced_in(nodes.drop_last());
        let last = referenced(nodes.last());
        assert(referenced_in(nodes) == first + last);
        assert forall|k: int| 0 <= k < first.len() implies location_from(
            table,
            #[trigger] first[k],
            0,
        ) is Some by {
            assert((first + last)[k] == first[k]);
        }
        assert forall|k: int| 0 <= k < last.len() implies location_from(
            table,
            #[trigger] last[k],
            0,
        ) is Some by {
            assert((first + last)[first.len() + k] == last[k]);
        }
        lemma_located_references_resolve_in(nodes.drop_last(), table);
        lemma_located_references_resolve(nodes.last(), table);
    }
}

/// Anchoring leaves the references of a document as they are.
pub proof fn lemma_anchoring_keeps_references(node: MarkupView)
    ensures
        referenced(anchored(node)) == referenced(node),
    decreases node, 0nat,
{
    match node {
        MarkupView::Element(name, attributes, children) => {
            lemma_anchoring_keeps_references_in(children);
            if is_term(name) && naked_id_in(children) is Some {
                let wrapper = anchor(naked_id_in(children).unwrap(), anchored_all(children));
                let only = seq![wrapper];
                assert(only.drop_last() =~= Seq::<MarkupView>::empty());
                assert(only.last() == wrapper);
                assert(referenced_in(only.drop_last()) =~= Seq::<Seq<char>>::empty());
                assert(referenced_in(only) =~= referenced(wrapper));
            }
        },
        MarkupView::Root(children) => {
            lemma_anchoring_keeps_references_in(children);
        },
        _ => {},
    }
}

/// Anchoring leaves the references of a list of nodes as they are.
pub proof fn lemma_anchoring_keeps_references_in(nodes: Seq<MarkupView>)
    ensures
        referenced_in(anchored_all(nodes)) == referenced_in(nodes),
    decreases nodes, 1nat,
{
    if nodes.len() > 0 {
        lemma_anchoring_keeps_references_in(nodes.drop_last());
        lemma_anchoring_keeps_references(nodes.last());
        assert(anchored_all(nodes).drop_last() =~= anchored_all(nodes.drop_last()));
        assert(anchored_all(nodes).last() == anchored(nodes.last()));
    }
}

/// Anchoring keeps a tree tidy: an anchor has one attribute.
pub proof fn lemma_anchoring_keeps_tidy(node: MarkupView)
    requires
        is_tidy(node),
    ensures
        is_tidy(anchored(node)),
    decreases node, 0nat,
{
    match node {
        MarkupView::Element(name, attributes, children) => {
            lemma_anchoring_keeps_tidy_in(children);
            if is_term(name) && naked_id_in(children) is Some {
                let inner = anchor(naked_id_in(children).unwrap(), anchored_all(children));
                assert(is_tidy(inner));
                assert(seq![inner][0] == inner);
                lemma_are_tidy(seq![inner]);
            }
        },
        MarkupView::Root(children) => {
            lemma_anchoring_keeps_tidy_in(children);
        },
        _ => {},
    }
}

/// Anchoring keeps trees tidy.
pub proof fn lemma_anchoring_keeps_tidy_in(nodes: Seq<MarkupView>)
    requires
        are_tidy(nodes),
    ensures
        are_tidy(anchored_all(nodes)),
    decreases nodes, 1nat,
{
    if nodes.len() > 0 {
        lemma_anchoring_keeps_tidy_in(nodes.drop_last());
        lemma_anchoring_keeps_tidy(nodes.last());
        assert(anchored_all(nodes).drop_last() =~= anchored_all(nodes.drop_last()));
    }
}

/// Linking keeps a tree tidy: a link has one attribute.
pub proof fn lemma_linking_keeps_tidy(node: MarkupView, table: Option<LocationsView>)
    requires
        is_tidy(node),
    ensures
        are_tidy(linked(node, table)),
    decreases node, 0nat,
{
    let out = linked(node, table);
    match node {
        MarkupView::Text(text) => {
            assert forall|k: int| 0 <= k < out.len() implies is_tidy(#[trigger] out[k]) by {
                match find_refs(text) {
                    Some(segments) => {
                        match segments[k] {
                            Segment::Text(_) => {},
                            Segment::Ref(id) => {
                                let only = seq![MarkupView::Text(id)];
                                assert(is_tidy(only[0]));
                                lemma_are_tidy(only);
                            },
                        }
                    },
                    None => {},
                }
            }
        },
        MarkupView::Element(_, _, children) => {
            lemma_linking_keeps_tidy_in(children, table);
        },
        MarkupView::Root(children) => {
            lemma_linking_keeps_tidy_in(children, table);
        },
        _ => {},
    }
    assert forall|k: int| 0 <= k < out.len() implies is_tidy(#[trigger] out[k]) by {}
    lemma_are_tidy(out);
}

/// Linking keeps trees tidy.
pub proof fn lemma_linking_keeps_tidy_in(nodes: Seq<MarkupView>, table: Option<LocationsView>)
    requires
        are_tidy(nodes),
    ensures
        are_tidy(linked_all(nodes, table)),
    decreases nodes, 1nat,
{
    if nodes.len() > 0 {
        lemma_linking_keeps_tidy_in(nodes.drop_last(), table);
        lemma_linking_keeps_tidy(nodes.last(), table);
        lemma_are_tidy_add(linked_all(nodes.drop_last(), table), linked(nodes.last(), table));
    }
}

/// A tidy document that is linkified is written as it is: anchors and
/// links have one attribute each, and every other element keeps its own.
pub proof fn lemma_linkified_is_tidy(doc: MarkupView, table: Option<LocationsView>, gfm: bool)
    requires
        is_tidy(doc),
    ensures
        are_tidy(linkified(doc, table, gfm)),
        written(MarkupView::Root(linkified(doc, table, gfm))) == MarkupView::Root(
            linkified(doc, table, gfm),
        ),
{
    if gfm {
        lemma_linking_keeps_tidy(doc, table);
    } else {
        lemma_anchoring_keeps_tidy(doc);
        lemma_linking_keeps_tidy(anchored(doc), table);
    }
    lemma_tidy_is_written_as_it_is(MarkupView::Root(linkified(doc, table, gfm)));
}

/// A document with its definitions anchored, unless the output is meant
/// for GitHub flavoured markdown, and its references linked.
pub open spec fn linkified(doc: MarkupView, table: Option<LocationsView>, gfm: bool) -> Seq<
    MarkupView,
> {
    linked(
        if gfm {
            doc
        } else {
            anchored(doc)
        },
        table,
    )
}

/// Linkifies a document: first anchors the naked definition terms, unless
/// `gfm` asks for output for GitHub flavoured markdown, then links the
/// references in all texts. Gives the nodes that take the place of the
/// document: one node, unless the document is a mere text with references.
///
/// Fails with the first reference that the table has no location for;
/// without a table each reference links to its fragment in the same
/// document and nothing fails.
pub fn linkify(table: Option<&UnitLocations>, doc: &Markup, gfm: bool) -> (r: Result<
    Vec<Markup>,
    LinkifyError,
>)
    ensures
        match r {
            Ok(out) => {
                &&& unresolved(if gfm { doc@ } else { anchored(doc@) }, table_view(table)) is None
                &&& markups_view(out@) == linkified(doc@, table_view(table), gfm)
            },
            Err(LinkifyError::UnitNotFound(id)) => unresolved(
                if gfm {
                    doc@
                } else {
                    anchored(doc@)
                },
                table_view(table),
            ) == Some(id@),
        },
        table is None ==> r is Ok,
{
    let prepared = if gfm {
        doc.copy()
    } else {
        anchor_terms(doc)
    };
    proof {
        lemma_fragments_always_resolve(prepared@);
    }
    link_refs(&prepared, table)
}

/// The document that is linkified when HTML is: the tree that the parser
/// makes of the HTML, with its definitions anchored unless the output is
/// meant for GitHub flavoured markdown.
pub open spec fn prepared(html: Seq<char>, gfm: bool) -> MarkupView {
    if gfm {
        parsed_document(html)
    } else {
        anchored(parsed_document(html))
    }
}

/// What HTML is linkified to: the serialisation of the linkified tree that
/// the parser makes of the HTML.
pub open spec fn linkified_html(html: Seq<char>, table: Option<LocationsView>, gfm: bool) -> Seq<
    char,
> {
    html_text(MarkupView::Root(linkified(parsed_document(html), table, gfm)))
}

/// Linkifies a document given as HTML and gives the result as HTML.
///
/// The text is parsed as an HTML document, linkified as [`linkify`] says,
/// and serialised again. Fails exactly when a reference names a unit that
/// the table has no location for, with the first such reference; without a
/// table nothing fails.
pub fn linkify_spec_string(table: Option<&UnitLocations>, html: &str, gfm: bool) -> (r: Result<
    String,
    LinkifyError,
>)
    ensures
        match r {
            Ok(text) => unresolved(prepared(html@, gfm), table_view(table)) is None && text@
                == linkified_html(html@, table_view(table), gfm),
            Err(LinkifyError::UnitNotFound(id)) => unresolved(
                prepared(html@, gfm),
                table_view(table),
            ) == Some(id@),
        },
        table is None ==> r is Ok,
{
    let doc = parse_html(html);
    proof {
        lemma_linkified_is_tidy(doc@, table_view(table), gfm);
    }
    match linkify(table, &doc, gfm) {
        Ok(out) => Ok(to_html(&Markup::Root(out))),
        Err(e) => Err(e),
    }
}

/// Where the definiendum with escaped bars that starts at `i` ends, if one
/// starts there: `\|id\|`.
pub open spec fn escaped_definiendum_end(s: Seq<char>, i: int) -> Option<int> {
    if 0 <= i && i + 2 <= s.len() && s[i] == '\\' && s[i + 1] == '|' {
        match scan_id(s, i + 2) {
            Some((e, _)) => if e + 2 <= s.len() && s[e] == '\\' && s[e + 1] == '|' {
                Some(e + 2)
            } else {
                None
            },
            None => None,
        }
    } else {
        None
    }
}

/// The anchor of a definiendum in markdown: `<span id="id">|id|</span>`.
pub open spec fn anchor_span_text(id: Seq<char>) -> Seq<char> {
    "<span id=\""@ + id + "\">|"@ + id + "|</span>"@
}

/// `s` from `i` on, with each definiendum with escaped bars replaced by
/// its anchor.
pub open spec fn gfm_anchorified_from(s: Seq<char>, i: int) -> Seq<char>
    decreases s.len() - i,
{
    if 0 <= i < s.len() {
        match escaped_definiendum_end(s, i) {
            Some(j) => if i < j <= s.len() {
                anchor_span_text(s.subrange(i + 2, j - 2)) + gfm_anchorified_from(s, j)
            } else {
                Seq::empty()
            },
            None => seq![s[i]] + gfm_anchorified_from(s, i + 1),
        }
    } else {
        Seq::empty()
    }
}

/// Anchors the definitions in markdown that cannot hold an anchor around a
/// term: each definiendum with escaped bars, `\|FOO.1\|`, becomes
/// `<span id="FOO.1">|FOO.1|</span>`; all else stays as it is.
pub fn gfm_anchorify(md: &str) -> (r: String)
    ensures
        r@ == gfm_anchorified_from(md@, 0),
{
    let s = chars_of(md);
    let mut out = String::new();
    let mut i: usize = 0;
    assert(out@ + gfm_anchorified_from(md@, 0) =~= gfm_anchorified_from(md@, 0));
    while i < s.len()
        invariant
            s@ == md@,
            i <= s.len(),
            out@ + gfm_anchorified_from(md@, i as int) == gfm_anchorified_from(md@, 0),
        decreases s.len() - i,
    {
        let ghost before = out@;
        let mut end: Option<usize> = None;
        if s.len() - i >= 2 && s[i] == '\\' && s[i + 1] == '|' {
            match read_id(&s, i + 2) {
                Some((e, _)) => {
                    proof {
                        lemma_scan_id_sound(md@, i + 2);
                    }
                    if s.len() - e >= 2 && s[e] == '\\' && s[e + 1] == '|' {
                        end = Some(e);
                    }
                },
                None => {},
            }
        }
        match end {
            Some(e) => {
                let id = string_of_range(&s, i + 2, e);
                out.push_str("<span id=\"");
                out.push_str(id.as_str());
                out.push_str("\">|");
                out.push_str(id.as_str());
                out.push_str("|</span>");
                assert(before + (anchor_span_text(id@) + gfm_anchorified_from(md@, e + 2)) =~= out@
                    + gfm_anchorified_from(md@, e + 2));
                i = e + 2;
            },
            None => {
                out.push(s[i]);
                assert(before + (seq![md@[i as int]] + gfm_anchorified_from(md@, i + 1)) =~= out@
                    + gfm_anchorified_from(md@, i + 1));
                i += 1;
            },
        }
    }
    assert(out@ + Seq::<char>::empty() =~= out@);
    out
}

/// Markdown in which the bars of anchored definitions are not escaped:
/// `[\|` becomes `[|` and `\|]` becomes `|]`.
pub open spec fn bars_unescaped(md: Seq<char>) -> Seq<char> {
    replaced(replaced(md, "[\\|"@, "[|"@), "\\|]"@, "|]"@)
}

/// Adjusts the markdown that the converter made of a linkified document.
/// For GitHub flavoured markdown the definitions are anchored as
/// [`gfm_anchorify`] says; otherwise the bars that the converter escaped in
/// the anchored definitions are restored.
pub fn adjust_markdown(md: &str, gfm: bool) -> (r: String)
    ensures
        r@ == if gfm {
            gfm_anchorified_from(md@, 0)
        } else {
            bars_unescaped(md@)
        },
{
    if gfm {
        gfm_anchorify(md)
    } else {
        proof {
            reveal_strlit("[\\|");
            reveal_strlit("\\|]");
        }
        let first = replace_all(md, "[\\|", "[|");
        replace_all(first.as_str(), "\\|]", "|]")
    }
}

} // verus!
