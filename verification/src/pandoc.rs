//! Definitions from the HTML that the document converter makes of prose.
//!
//! The converter turns each definition list of a document into a `dl` with
//! a `dt` for each term and a `dd` for each block of its definition. This
//! module pairs the terms with their definitions.

use vstd::prelude::*;
use vstd::utf8::{decode_utf8, valid_utf8};
use crate::dom::{
    html_text, inner_html_text, parse_html_fragment, parsed_body_fragment, parsed_document,
    reread, reread_html, to_html, to_inner_html, written,
};
use crate::grammar::is_id_text;
use crate::markup::{html_namespace, lemma_markups_view, markups_view, Markup, MarkupView};
use crate::parser::{is_definiendum, logical_unit_definiendum};
use crate::repo::opt_view;
use crate::text::{join, joined, same_text, strings_view};

verus! {

/// What can go wrong with the output of the converter.
#[derive(Debug, Clone, PartialEq, Eq)]
pub enum Error {
    /// The converter gave no usable data.
    PandocData(String),
    /// A definition list is malformed. Holds what was met and the list.
    DefinitionListParsing(String, String),
}

impl Error {
    /// A message that names the cause.
    pub fn to_string(&self) -> (r: String)
        ensures
            r@ == match self {
                Error::PandocData(cause) => "Processing data from pandoc: "@ + cause@,
                Error::DefinitionListParsing(cause, list) =>
                    "Parsing definition list. Encountered "@ + cause@ + " while parsing `"@
                        + list@ + "`"@,
            },
    {
        match self {
            Error::PandocData(cause) => {
                let mut r = "Processing data from pandoc: ".to_owned();
                r.push_str(cause.as_str());
                r
            },
            Error::DefinitionListParsing(cause, list) => {
                let mut r = "Parsing definition list. Encountered ".to_owned();
                r.push_str(cause.as_str());
                r.push_str(" while parsing `");
                r.push_str(list.as_str());
                r.push_str("`");
                r
            },
        }
    }
}

/// The text that bytes decode to when each malformed sequence is replaced
/// by the replacement character.
pub uninterp spec fn lossy_utf8(bytes: Seq<u8>) -> Seq<char>;

/// `String::from_utf8_lossy` decodes bytes as UTF-8 and replaces each
/// malformed sequence by the replacement character; well-formed bytes
/// decode to their text.
#[verifier::external_body]
fn decode_lossy(bytes: &[u8]) -> (r: String)
    ensures
        r@ == lossy_utf8(bytes@),
        valid_utf8(bytes@) ==> r@ == decode_utf8(bytes@),
{
    String::from_utf8_lossy(bytes).into_owned()
}

/// The HTML that the converter wrote to its output.
///
/// Fails exactly when the converter wrote nothing.
pub fn html_from_md_bytes(b: &[u8]) -> (r: Result<String, Error>)
    ensures
        r is Ok <==> b@.len() > 0,
        match r {
            Ok(html) => html@ == lossy_utf8(b@),
            Err(Error::PandocData(cause)) => cause@ == "no data received from pandoc"@,
            Err(_) => false,
        },
{
    if b.len() == 0 {
        Err(Error::PandocData("no data received from pandoc".to_owned()))
    } else {
        Ok(decode_lossy(b))
    }
}

/// Whether `node` is an element with the local name `a` or `b`.
pub open spec fn is_named(node: MarkupView, a: Seq<char>, b: Seq<char>) -> bool {
    match node {
        MarkupView::Element(name, _, _) => name.local == a || name.local == b,
        _ => false,
    }
}

/// The elements below `node` that are named `a` or `b`, in the order of the
/// document.
pub open spec fn elements_named(node: MarkupView, a: Seq<char>, b: Seq<char>) -> Seq<MarkupView>
    decreases node, 0nat,
{
    match node {
        MarkupView::Element(_, _, children) => elements_named_in(children, a, b),
        MarkupView::Root(children) => elements_named_in(children, a, b),
        _ => Seq::empty(),
    }
}

/// The elements among `nodes` and below them that are named `a` or `b`, in
/// the order of the document.
pub open spec fn elements_named_in(nodes: Seq<MarkupView>, a: Seq<char>, b: Seq<char>) -> Seq<
    MarkupView,
>
    decreases nodes, 1nat,
{
    if nodes.len() == 0 {
        Seq::empty()
    } else {
        elements_named_in(nodes.drop_last(), a, b) + (if is_named(nodes.last(), a, b) {
            seq![nodes.last()]
        } else {
            Seq::empty()
        }) + elements_named(nodes.last(), a, b)
    }
}

/// The nodes that `found` refers to, each by its view.
pub open spec fn refs_view(found: Seq<&Markup>) -> Seq<MarkupView> {
    Seq::new(found.len(), |i: int| (*found[i])@)
}

/// Whether `node` is an element with the local name `a` or `b`.
fn named(node: &Markup, a: &str, b: &str) -> (r: bool)
    ensures
        r == is_named(node@, a@, b@),
{
    match node {
        Markup::Element(name, _, _) => same_text(name.local.as_str(), a) || same_text(
            name.local.as_str(),
            b,
        ),
        _ => false,
    }
}

/// Adds to `out` the elements among `nodes` and below them that are named
/// `a` or `b`.
#[verifier::loop_isolation(false)]
fn collect_named_in<'a>(nodes: &'a Vec<Markup>, a: &str, b: &str, out: &mut Vec<&'a Markup>)
    ensures
        refs_view(final(out)@) == refs_view(old(out)@) + elements_named_in(
            markups_view(nodes@),
            a@,
            b@,
        ),
    decreases nodes,
{
    let ghost all = markups_view(nodes@);
    let mut i: usize = 0;
    proof {
        lemma_markups_view(nodes@);
        assert(all.take(0) =~= Seq::<MarkupView>::empty());
        assert(refs_view(out@) + elements_named_in(all.take(0), a@, b@) =~= refs_view(out@));
    }
    while i < nodes.len()
        invariant
            i <= nodes.len(),
            refs_view(out@) == refs_view(old(out)@) + elements_named_in(all.take(i as int), a@, b@),
        decreases nodes.len() - i,
    {
        let ghost before = refs_view(out@);
        proof {
            assert(all.take(i + 1).drop_last() =~= all.take(i as int));
            assert(all.take(i + 1).last() == nodes@[i as int]@);
        }
        if named(&nodes[i], a, b) {
            out.push(&nodes[i]);
            assert(refs_view(out@) =~= before + seq![nodes@[i as int]@]);
        } else {
            assert(refs_view(out@) =~= before + Seq::<MarkupView>::empty());
        }
        let ghost middle = refs_view(out@);
        collect_named(&nodes[i], a, b, out);
        proof {
            let first = elements_named_in(all.take(i as int), a@, b@);
            let here = if is_named(nodes@[i as int]@, a@, b@) {
                seq![nodes@[i as int]@]
            } else {
                Seq::<MarkupView>::empty()
            };
            let below = elements_named(nodes@[i as int]@, a@, b@);
            assert(refs_view(out@) == middle + below);
            assert(middle == before + here);
            assert((refs_view(old(out)@) + first + here) + below =~= refs_view(old(out)@) + (first
                + here + below));
        }
        i += 1;
    }
    proof {
        assert(all.take(nodes@.len() as int) =~= all);
    }
}

/// Adds to `out` the elements below `node` that are named `a` or `b`.
fn collect_named<'a>(node: &'a Markup, a: &str, b: &str, out: &mut Vec<&'a Markup>)
    ensures
        refs_view(final(out)@) == refs_view(old(out)@) + elements_named(node@, a@, b@),
    decreases *node,
{
    match node {
        Markup::Element(_, _, children) => collect_named_in(children, a, b, out),
        Markup::Root(children) => collect_named_in(children, a, b, out),
        _ => {
            assert(refs_view(out@) + Seq::<MarkupView>::empty() =~= refs_view(out@));
        },
    }
}

/// The elements below `node` that are named `a` or `b`, in the order of the
/// document.
pub fn select_elements<'a>(node: &'a Markup, a: &str, b: &str) -> (r: Vec<&'a Markup>)
    ensures
        refs_view(r@) == elements_named(node@, a@, b@),
{
    let mut out: Vec<&'a Markup> = Vec::new();
    collect_named(node, a, b, &mut out);
    assert(refs_view(Seq::<&Markup>::empty()) + elements_named(node@, a@, b@) =~= elements_named(
        node@,
        a@,
        b@,
    ));
    out
}

/// Whether `node` is a definition term: an element `dt`.
pub open spec fn is_dt(node: MarkupView) -> bool {
    is_named(node, "dt"@, "dt"@)
}

/// Where the run of items of one kind that starts at `k` ends: terms with
/// terms, definitions with definitions.
pub open spec fn run_end(items: Seq<MarkupView>, k: int, from: int) -> int
    decreases items.len() - from,
{
    if 0 <= k <= from < items.len() && is_dt(items[from]) == is_dt(items[k]) {
        run_end(items, k, from + 1)
    } else {
        from
    }
}

/// How the items of a definition list can be malformed.
pub enum Malformed {
    /// Definitions come before any term.
    InvalidGroups,
    /// Several terms share one definition.
    MultipleTerms,
}

/// A term with the blocks of its definition.
pub struct Definition {
    pub term: MarkupView,
    pub blocks: Seq<MarkupView>,
}

/// The definitions that the items of a definition list make from `k` on.
/// The items are taken in runs of terms and runs of definitions, and the
/// runs in pairs; a run without a partner at the end is left out. A pair
/// must be a single term followed by its definitions.
pub open spec fn definitions_from(items: Seq<MarkupView>, k: int) -> Result<
    Seq<Definition>,
    Malformed,
>
    decreases items.len() - k,
{
    let e1 = run_end(items, k, k);
    let e2 = run_end(items, e1, e1);
    if 0 <= k < e1 < e2 <= items.len() {
        if !is_dt(items[k]) {
            Err(Malformed::InvalidGroups)
        } else if e1 - k != 1 {
            Err(Malformed::MultipleTerms)
        } else {
            match definitions_from(items, e2) {
                Ok(rest) => Ok(
                    seq![Definition { term: items[k], blocks: items.subrange(e1, e2) }] + rest,
                ),
                Err(e) => Err(e),
            }
        }
    } else {
        Ok(Seq::empty())
    }
}

/// The items of a definition list: its terms and definitions at any depth,
/// in the order of the document.
pub open spec fn definition_items(list: MarkupView) -> Seq<MarkupView> {
    elements_named(list, "dt"@, "dd"@)
}

/// The definition lists of a document, in the order of the document.
pub open spec fn definition_lists(doc: MarkupView) -> Seq<MarkupView> {
    elements_named(doc, "dl"@, "dl"@)
}

/// The definitions of the first `n` definition lists, or how the first
/// malformed list among them is malformed.
pub open spec fn definitions_of_lists(lists: Seq<MarkupView>, n: int) -> Result<
    Seq<Definition>,
    Malformed,
>
    decreases n,
{
    if n <= 0 || n > lists.len() {
        Ok(Seq::empty())
    } else {
        match definitions_of_lists(lists, n - 1) {
            Err(e) => Err(e),
            Ok(before) => match definitions_from(definition_items(lists[n - 1]), 0) {
                Err(e) => Err(e),
                Ok(here) => Ok(before + here),
            },
        }
    }
}

/// The definitions of a document, or how its first malformed definition
/// list is malformed.
pub open spec fn definitions_of(doc: MarkupView) -> Result<Seq<Definition>, Malformed> {
    definitions_of_lists(definition_lists(doc), definition_lists(doc).len() as int)
}

/// A term with the blocks of its definition, in a document.
pub struct DefinitionRef<'a> {
    pub term: &'a Markup,
    pub blocks: Vec<&'a Markup>,
}

impl<'a> View for DefinitionRef<'a> {
    type V = Definition;

    open spec fn view(&self) -> Definition {
        Definition { term: (*self.term)@, blocks: refs_view(self.blocks@) }
    }
}

/// The definitions of `found`, each by its view.
pub open spec fn definitions_view(found: Seq<DefinitionRef>) -> Seq<Definition> {
    Seq::new(found.len(), |i: int| found[i]@)
}

/// Whether `node` is a definition term.
fn is_term_item(node: &Markup) -> (r: bool)
    ensures
        r == is_dt(node@),
{
    named(node, "dt", "dt")
}

/// Where the run of items of one kind that starts at `k` ends.
fn find_run_end(items: &Vec<&Markup>, k: usize) -> (e: usize)
    requires
        k <= items.len(),
    ensures
        e == run_end(refs_view(items@), k as int, k as int),
        k <= e <= items.len(),
        k < items.len() ==> k < e,
{
    let ghost iv = refs_view(items@);
    if k >= items.len() {
        return k;
    }
    let kind = is_term_item(items[k]);
    let mut j = k;
    while j < items.len() && is_term_item(items[j]) == kind
        invariant
            iv == refs_view(items@),
            k < items.len(),
            kind == is_dt(iv[k as int]),
            k <= j <= items.len(),
            run_end(iv, k as int, k as int) == run_end(iv, k as int, j as int),
            j == k || j > k,
        decreases items.len() - j,
    {
        assert(iv[j as int] == (*items@[j as int])@);
        j += 1;
    }
    proof {
        if j < items.len() {
            assert(iv[j as int] == (*items@[j as int])@);
        }
        assert(iv[k as int] == (*items@[k as int])@);
    }
    j
}

/// The definitions that the items of a definition list make.
pub fn definitions_of_items<'a>(items: &Vec<&'a Markup>) -> (r: Result<
    Vec<DefinitionRef<'a>>,
    Malformed,
>)
    ensures
        match r {
            Ok(found) => definitions_from(refs_view(items@), 0) == Ok::<
                Seq<Definition>,
                Malformed,
            >(definitions_view(found@)),
            Err(e) => definitions_from(refs_view(items@), 0) == Err::<Seq<Definition>, Malformed>(
                e,
            ),
        },
{
    let ghost iv = refs_view(items@);
    let mut found: Vec<DefinitionRef<'a>> = Vec::new();
    let mut k: usize = 0;
    proof {
        assert(definitions_view(found@) =~= Seq::<Definition>::empty());
        lemma_prepend_definitions(Seq::empty(), definitions_from(iv, 0));
    }
    loop
        invariant
            iv == refs_view(items@),
            k <= items.len(),
            definitions_from(iv, 0) == prepend_definitions(
                definitions_view(found@),
                definitions_from(iv, k as int),
            ),
        ensures
            definitions_from(iv, 0) == Ok::<Seq<Definition>, Malformed>(definitions_view(found@)),
        decreases items.len() - k,
    {
        let e1 = find_run_end(items, k);
        let e2 = find_run_end(items, e1);
        if !(k < e1 && e1 < e2) {
            proof {
                assert(definitions_from(iv, k as int) == Ok::<Seq<Definition>, Malformed>(
                    Seq::empty(),
                ));
                assert(definitions_view(found@) + Seq::<Definition>::empty() =~= definitions_view(
                    found@,
                ));
            }
            break;
        }
        assert(iv[k as int] == (*items@[k as int])@);
        if !is_term_item(items[k]) {
            return Err(Malformed::InvalidGroups);
        }
        if e1 - k != 1 {
            return Err(Malformed::MultipleTerms);
        }
        let mut blocks: Vec<&'a Markup> = Vec::new();
        let mut j = e1;
        while j < e2
            invariant
                iv == refs_view(items@),
                e1 <= j <= e2 <= items.len(),
                refs_view(blocks@) == iv.subrange(e1 as int, j as int),
            decreases e2 - j,
        {
            let ghost before = refs_view(blocks@);
            blocks.push(items[j]);
            assert(refs_view(blocks@) =~= before.push((*items@[j as int])@));
            assert(iv.subrange(e1 as int, j + 1) =~= iv.subrange(e1 as int, j as int).push(
                iv[j as int],
            ));
            j += 1;
        }
        let ghost before = definitions_view(found@);
        let definition = DefinitionRef { term: items[k], blocks };
        proof {
            assert(refs_view(Seq::<&Markup>::empty()) =~= Seq::<MarkupView>::empty());
        }
        found.push(definition);
        proof {
            let d = Definition { term: iv[k as int], blocks: iv.subrange(e1 as int, e2 as int) };
            assert(definitions_view(found@) =~= before.push(d));
            lemma_prepend_step(before, d, definitions_from(iv, e2 as int));
        }
        k = e2;
    }
    Ok(found)
}

/// The definitions `first` followed by those of `rest`, where `rest` has
/// any.
pub open spec fn prepend_definitions(
    first: Seq<Definition>,
    rest: Result<Seq<Definition>, Malformed>,
) -> Result<Seq<Definition>, Malformed> {
    match rest {
        Ok(more) => Ok(first + more),
        Err(e) => Err(e),
    }
}

proof fn lemma_prepend_definitions(first: Seq<Definition>, rest: Result<Seq<Definition>, Malformed>)
    requires
        first.len() == 0,
    ensures
        prepend_definitions(first, rest) == rest,
{
    match rest {
        Ok(more) => {
            assert(first + more =~= more);
        },
        Err(_) => {},
    }
}

proof fn lemma_prepend_step(
    first: Seq<Definition>,
    d: Definition,
    rest: Result<Seq<Definition>, Malformed>,
)
    ensures
        prepend_definitions(first, prepend_definitions(seq![d], rest)) == prepend_definitions(
            first.push(d),
            rest,
        ),
{
    match rest {
        Ok(more) => {
            assert(first + (seq![d] + more) =~= first.push(d) + more);
        },
        Err(_) => {},
    }
}

/// The markdown that HTML converts to.
pub uninterp spec fn html_as_markdown(html: Seq<char>) -> Seq<char>;

/// Whether an element of this name is a list.
pub open spec fn is_list_name(local: Seq<char>) -> bool {
    local == "ul"@ || local == "ol"@ || local == "menu"@
}

/// Whether the converter keeps, for an element of this name, the place in
/// its output at which the element began: it does so for a style, for a
/// quotation and for an anchor.
pub open spec fn keeps_place(local: Seq<char>) -> bool {
    ||| local == "b"@
    ||| local == "i"@
    ||| local == "s"@
    ||| local == "strong"@
    ||| local == "em"@
    ||| local == "del"@
    ||| local == "q"@
    ||| local == "cite"@
    ||| local == "blockquote"@
    ||| local == "a"@
}

/// Whether an element of this name holds a part of a text: a paragraph, a
/// heading, a division, a quotation, a figure, preformatted text or a
/// break.
pub open spec fn is_block_name(local: Seq<char>) -> bool {
    ||| local == "p"@
    ||| local == "div"@
    ||| local == "pre"@
    ||| local == "blockquote"@
    ||| local == "h1"@
    ||| local == "h2"@
    ||| local == "h3"@
    ||| local == "h4"@
    ||| local == "h5"@
    ||| local == "h6"@
    ||| local == "hr"@
    ||| local == "br"@
    ||| local == "section"@
    ||| local == "header"@
    ||| local == "footer"@
    ||| local == "article"@
    ||| local == "aside"@
    ||| local == "nav"@
    ||| local == "main"@
    ||| local == "figure"@
    ||| local == "figcaption"@
}

/// Whether an element of this name is a list, a list item, or a
/// definition list, a term or a definition of one.
pub open spec fn is_listing_name(local: Seq<char>) -> bool {
    ||| is_list_name(local)
    ||| local == "li"@
    ||| local == "dl"@
    ||| local == "dt"@
    ||| local == "dd"@
}

/// Whether an element of this name marks words within a text.
pub open spec fn is_inline_name(local: Seq<char>) -> bool {
    ||| local == "a"@
    ||| local == "b"@
    ||| local == "i"@
    ||| local == "s"@
    ||| local == "u"@
    ||| local == "strong"@
    ||| local == "em"@
    ||| local == "del"@
    ||| local == "ins"@
    ||| local == "code"@
    ||| local == "span"@
    ||| local == "sub"@
    ||| local == "sup"@
    ||| local == "small"@
    ||| local == "mark"@
    ||| local == "kbd"@
    ||| local == "samp"@
    ||| local == "var"@
    ||| local == "abbr"@
    ||| local == "dfn"@
    ||| local == "cite"@
    ||| local == "q"@
    ||| local == "img"@
}

/// Whether an element of this name is one that the converter is given:
/// the three elements that every document has, and the elements of
/// running text. Every other element is left out, and with them those
/// for which a parser has rules of its own that go beyond opening and
/// closing them: tables, forms, scripts and styles, embedded content,
/// templates.
pub open spec fn is_plain_name(local: Seq<char>) -> bool {
    ||| local == "html"@
    ||| local == "head"@
    ||| local == "body"@
    ||| is_block_name(local)
    ||| is_listing_name(local)
    ||| is_inline_name(local)
}

/// Whether the tree is plain and no list item of it is a stray in an
/// element whose place is kept. A tree is plain where it is made of texts
/// and of HTML elements that the converter is given. A list item is a
/// stray where it has no list above it. `in_list` says whether the tree
/// itself stands in a list, `kept` whether it stands in an element whose
/// place is kept.
pub open spec fn is_sound(node: MarkupView, in_list: bool, kept: bool) -> bool
    decreases node, 0nat,
{
    match node {
        MarkupView::Element(name, _, children) => {
            &&& name.ns == html_namespace()
            &&& is_plain_name(name.local)
            &&& !(kept && !in_list && name.local == "li"@)
            &&& are_sound(
                children,
                in_list || is_list_name(name.local),
                kept || keeps_place(name.local),
            )
        },
        MarkupView::Text(_) => true,
        MarkupView::Root(children) => are_sound(children, in_list, kept),
        _ => false,
    }
}

/// Whether each of the trees is plain and without a stray list item in an
/// element whose place is kept.
pub open spec fn are_sound(nodes: Seq<MarkupView>, in_list: bool, kept: bool) -> bool
    decreases nodes, 1nat,
{
    if nodes.len() == 0 {
        true
    } else {
        are_sound(nodes.drop_last(), in_list, kept) && is_sound(nodes.last(), in_list, kept)
    }
}

/// Whether a tree can be converted to markdown: it is made of texts and
/// of HTML elements that the converter is given, and no list item of it
/// is a stray in a style, a quotation or an anchor. At the end of a stray
/// item the converter changes what it wrote before, and the places that
/// it keeps for the elements around the item are then no longer theirs.
pub open spec fn is_convertible(tree: MarkupView) -> bool {
    is_sound(tree, false, false)
}

/// Whether `html` can be converted to markdown: the document that the
/// parser reads from it can be, and is written as `html` again. The
/// converter parses what it is given, so that what counts is the tree
/// that a parser reads from this very text.
pub open spec fn is_convertible_html(html: Seq<char>) -> bool {
    is_convertible(parsed_document(html)) && reread_html(html) == html
}

/// `html2md::parse_html` converts HTML to markdown.
///
/// At the end of a list item that has no `ol`, `ul` or `menu` above it, the
/// converter removes blanks from the start of all it has written and
/// indents every line of it, while a style (`b`, `i`, `s`, `strong`, `em`,
/// `del`), a quotation (`q`, `cite`, `blockquote`) or an anchor (`a`)
/// around the item keeps where in the output it began; at its end the
/// converter cuts or inserts there, and panics where that place is gone
/// or inside a character. Such input is left out here.
///
/// The converter reads the text with a later version of the parser than
/// the one that `parsed_document` stands for. The text must therefore be
/// one that the parser reads as a tree of texts and of the HTML elements
/// named in [`is_plain_name`] only, and that is the very text which that
/// tree is written as: each element of it is then opened and closed
/// where its tags stand, by rules that both versions have. The contract
/// rests on that.
#[verifier::external_body]
fn markdown_of_html(html: &str) -> (r: String)
    requires
        is_convertible_html(html@),
    ensures
        r@ == html_as_markdown(html@),
{
    html2md::parse_html(html)
}

/// Whether an element of this name is a list.
fn is_list(local: &str) -> (r: bool)
    ensures
        r == is_list_name(local@),
{
    same_text(local, "ul") || same_text(local, "ol") || same_text(local, "menu")
}

/// Whether the converter keeps the place of an element of this name.
fn is_place_kept(local: &str) -> (r: bool)
    ensures
        r == keeps_place(local@),
{
    same_text(local, "b") || same_text(local, "i") || same_text(local, "s") || same_text(
        local,
        "strong",
    ) || same_text(local, "em") || same_text(local, "del") || same_text(local, "q")
        || same_text(local, "cite") || same_text(local, "blockquote") || same_text(local, "a")
}

/// Whether an element of this name holds a part of a text.
fn is_block(local: &str) -> (r: bool)
    ensures
        r == is_block_name(local@),
{
    same_text(local, "p") || same_text(local, "div") || same_text(local, "pre") || same_text(
        local,
        "blockquote",
    ) || same_text(local, "h1") || same_text(local, "h2") || same_text(local, "h3")
        || same_text(local, "h4") || same_text(local, "h5") || same_text(local, "h6")
        || same_text(local, "hr") || same_text(local, "br") || same_text(local, "section")
        || same_text(local, "header") || same_text(local, "footer") || same_text(
        local,
        "article",
    ) || same_text(local, "aside") || same_text(local, "nav") || same_text(local, "main")
        || same_text(local, "figure") || same_text(local, "figcaption")
}

/// Whether an element of this name is a list, a list item, or a
/// definition list, a term or a definition of one.
fn is_listing(local: &str) -> (r: bool)
    ensures
        r == is_listing_name(local@),
{
    is_list(local) || same_text(local, "li") || same_text(local, "dl") || same_text(local, "dt")
        || same_text(local, "dd")
}

/// Whether an element of this name marks words within a text.
fn is_inline(local: &str) -> (r: bool)
    ensures
        r == is_inline_name(local@),
{
    same_text(local, "a") || same_text(local, "b") || same_text(local, "i") || same_text(
        local,
        "s",
    ) || same_text(local, "u") || same_text(local, "strong") || same_text(local, "em")
        || same_text(local, "del") || same_text(local, "ins") || same_text(local, "code")
        || same_text(local, "span") || same_text(local, "sub") || same_text(local, "sup")
        || same_text(local, "small") || same_text(local, "mark") || same_text(local, "kbd")
        || same_text(local, "samp") || same_text(local, "var") || same_text(local, "abbr")
        || same_text(local, "dfn") || same_text(local, "cite") || same_text(local, "q")
        || same_text(local, "img")
}

/// Whether an element of this name is one that the converter is given.
fn is_plain(local: &str) -> (r: bool)
    ensures
        r == is_plain_name(local@),
{
    same_text(local, "html") || same_text(local, "head") || same_text(local, "body") || is_block(
        local,
    ) || is_listing(local) || is_inline(local)
}

/// Whether each of the trees is plain and without a stray list item in an
/// element whose place is kept.
#[verifier::loop_isolation(false)]
fn all_sound(nodes: &Vec<Markup>, in_list: bool, kept: bool) -> (r: bool)
    ensures
        r == are_sound(markups_view(nodes@), in_list, kept),
    decreases nodes,
{
    let ghost all = markups_view(nodes@);
    let mut i: usize = 0;
    proof {
        lemma_markups_view(nodes@);
        assert(all.take(0) =~= Seq::<MarkupView>::empty());
    }
    while i < nodes.len()
        invariant
            i <= nodes.len(),
            are_sound(all.take(i as int), in_list, kept),
        decreases nodes.len() - i,
    {
        proof {
            assert(all.take(i + 1).drop_last() =~= all.take(i as int));
            assert(all.take(i + 1).last() == nodes@[i as int]@);
        }
        if !sound(&nodes[i], in_list, kept) {
            proof {
                lemma_unsound_stays(all, in_list, kept, i + 1);
            }
            return false;
        }
        i += 1;
    }
    proof {
        assert(all.take(nodes@.len() as int) =~= all);
    }
    true
}

/// What fails among the first trees of a list fails in the list.
proof fn lemma_unsound_stays(nodes: Seq<MarkupView>, in_list: bool, kept: bool, n: int)
    requires
        0 <= n <= nodes.len(),
        !are_sound(nodes.take(n), in_list, kept),
    ensures
        !are_sound(nodes, in_list, kept),
    decreases nodes.len() - n,
{
    if n < nodes.len() {
        assert(nodes.take(n + 1).drop_last() =~= nodes.take(n));
        lemma_unsound_stays(nodes, in_list, kept, n + 1);
    } else {
        assert(nodes.take(n) =~= nodes);
    }
}

/// Whether the tree is plain and no list item of it is a stray in an
/// element whose place is kept.
fn sound(node: &Markup, in_list: bool, kept: bool) -> (r: bool)
    ensures
        r == is_sound(node@, in_list, kept),
    decreases *node,
{
    match node {
        Markup::Element(name, _, children) => {
            let local = name.local.as_str();
            if !same_text(name.ns.as_str(), "http://www.w3.org/1999/xhtml") || !is_plain(local)
                || (kept && !in_list && same_text(local, "li")) {
                false
            } else {
                all_sound(children, in_list || is_list(local), kept || is_place_kept(local))
            }
        },
        Markup::Text(_) => true,
        Markup::Root(children) => all_sound(children, in_list, kept),
        _ => false,
    }
}

/// Whether a tree can be converted to markdown: it is made of texts and
/// of HTML elements that the converter is given, and no list item of it
/// stands outside any list in a style, a quotation or an anchor.
pub fn can_convert(tree: &Markup) -> (r: bool)
    ensures
        r == is_convertible(tree@),
{
    sound(tree, false, false)
}

/// The text that is converted for `html`, if `html` can be converted: the
/// HTML of the document that the parser reads from `html`, where the
/// parser reads that text as a tree that can be converted and that is
/// written as that text again.
pub open spec fn convertible_text(html: Seq<char>) -> Option<Seq<char>> {
    if is_convertible_html(reread_html(html)) {
        Some(reread_html(html))
    } else {
        None
    }
}

/// The text that is converted for `html`, if `html` can be converted.
pub fn text_to_convert(html: &str) -> (r: Option<String>)
    ensures
        opt_view(r) == convertible_text(html@),
{
    let first = reread(html);
    let second = reread(first.1.as_str());
    if same_text(second.1.as_str(), first.1.as_str()) && can_convert(&second.0) {
        Some(first.1)
    } else {
        None
    }
}


/// What is said of a definition list that is malformed.
pub open spec fn malformed_message(e: Malformed) -> Seq<char> {
    match e {
        Malformed::InvalidGroups => "invalid tags on def list groups"@,
        Malformed::MultipleTerms => "multiple definition terms (not yet supported)"@,
    }
}

/// The error for a definition list that is malformed: what is wrong with
/// it, and the list as HTML.
pub fn def_parsing_err(e: Malformed, list: &Markup) -> (r: Error)
    ensures
        match r {
            Error::DefinitionListParsing(cause, html) => cause@ == malformed_message(e) && html@
                == html_text(written(list@)),
            _ => false,
        },
{
    let cause = match e {
        Malformed::InvalidGroups => "invalid tags on def list groups".to_owned(),
        Malformed::MultipleTerms => "multiple definition terms (not yet supported)".to_owned(),
    };
    Error::DefinitionListParsing(cause, to_html(list))
}

/// The nodes of markup that stand for a term: those below the innermost
/// element that is reached from the term through only children.
pub open spec fn term_content(term: MarkupView) -> Seq<MarkupView>
    decreases term,
{
    match term {
        MarkupView::Element(_, _, children) => if children.len() == 1 && children[0] is Element {
            term_content(children[0])
        } else {
            children
        },
        MarkupView::Root(children) => children,
        _ => Seq::empty(),
    }
}

/// The element whose content stands for a term: the innermost element that
/// is reached from the term through only children.
pub open spec fn innermost(term: MarkupView) -> MarkupView
    decreases term,
{
    match term {
        MarkupView::Element(_, _, children) => if children.len() == 1 && children[0] is Element {
            innermost(children[0])
        } else {
            term
        },
        _ => term,
    }
}

/// The element whose content stands for a term: the innermost element that
/// is reached from the term through only children.
pub fn term_element<'a>(term: &'a Markup) -> (r: &'a Markup)
    ensures
        (*r)@ == innermost(term@),
        term_content((*r)@) == term_content(term@),
        match (*r)@ {
            MarkupView::Element(_, _, children) => children == term_content(term@),
            MarkupView::Root(children) => children == term_content(term@),
            _ => term_content(term@).len() == 0,
        },
    decreases *term,
{
    match term {
        Markup::Element(_, _, children) => {
            proof {
                lemma_markups_view(children@);
            }
            if children.len() == 1 {
                match &children[0] {
                    Markup::Element(_, _, _) => term_element(&children[0]),
                    _ => term,
                }
            } else {
                term
            }
        },
        _ => term,
    }
}

/// The identifier that a term defines, if it does: what stands for the
/// term is a single text, and the text is a definiendum. Whether the term
/// or an element in it is anchored makes no difference here.
pub open spec fn term_id(term: MarkupView) -> Option<Seq<char>> {
    let content = term_content(term);
    if content.len() == 1 {
        match content[0] {
            MarkupView::Text(text) => if is_definiendum(text) {
                Some(text.subrange(1, text.len() - 1))
            } else {
                None
            },
            _ => None,
        }
    } else {
        None
    }
}

/// The identifier that a term defines, if it does: `<dt>|FOO.1|</dt>` and
/// `<dt><a id="x"><em>|FOO.1|</em></a></dt>` define `FOO.1`;
/// `<dt>|FOO.1| and more</dt>` and `<dt><em>|FOO.1|</em> more</dt>` define
/// nothing.
pub fn id_of_term(term: &Markup) -> (r: Option<String>)
    ensures
        match r {
            Some(id) => term_id(term@) == Some(id@) && is_id_text(id@),
            None => term_id(term@) is None,
        },
{
    let children = match term_element(term) {
        Markup::Element(_, _, children) => children,
        Markup::Root(children) => children,
        _ => {
            return None;
        },
    };
    proof {
        lemma_markups_view(children@);
    }
    if children.len() != 1 {
        return None;
    }
    match &children[0] {
        Markup::Text(text) => match logical_unit_definiendum(text.as_str()) {
            Ok(id) => Some(id),
            Err(_) => None,
        },
        _ => None,
    }
}

/// The tag of a definition term: the HTML of what is in the innermost
/// element that is reached from the term through only children.
pub open spec fn tag_text(term: MarkupView) -> Seq<char> {
    inner_html_text(written(innermost(term)))
}

/// The tag of a definition term: the HTML of what stands for the term,
/// found even where the term is wrapped in inline elements, nested or not.
pub fn tag_of_term(term: &Markup) -> (r: String)
    ensures
        r@ == tag_text(term@),
{
    to_inner_html(term_element(term))
}

/// The text that is converted for a block of a definition, if the block
/// can be converted.
pub open spec fn block_text(block: MarkupView) -> Option<Seq<char>> {
    convertible_text(html_text(written(block)))
}

/// Each of the blocks as markdown, in order, where each can be converted.
pub open spec fn block_markdowns(blocks: Seq<MarkupView>) -> Seq<Seq<char>> {
    Seq::new(blocks.len(), |i: int| html_as_markdown(block_text(blocks[i]).unwrap()))
}

/// The content of a definition, if each of its blocks can be converted:
/// each block as markdown, with an empty line between each two.
pub open spec fn content_text(blocks: Seq<MarkupView>) -> Option<Seq<char>> {
    if forall|i: int| 0 <= i < blocks.len() ==> block_text(#[trigger] blocks[i]) is Some {
        Some(joined(block_markdowns(blocks), "\n\n"@))
    } else {
        None
    }
}

/// The content of a definition: its blocks as markdown, with an empty line
/// between each two. There is none where a block cannot be converted:
/// where it is read as anything but texts and elements of running text,
/// or with a list item outside any list in a style, a quotation or an
/// anchor.
pub fn content_of_blocks(blocks: &Vec<&Markup>) -> (r: Option<String>)
    ensures
        opt_view(r) == content_text(refs_view(blocks@)),
{
    let ghost views = refs_view(blocks@);
    let mut parts: Vec<String> = Vec::new();
    let mut i: usize = 0;
    while i < blocks.len()
        invariant
            views == refs_view(blocks@),
            i <= blocks.len(),
            parts@.len() == i,
            forall|k: int| 0 <= k < i ==> block_text(#[trigger] views[k]) is Some,
            forall|k: int|
                0 <= k < i ==> (#[trigger] parts@[k])@ == html_as_markdown(
                    block_text(views[k]).unwrap(),
                ),
        decreases blocks.len() - i,
    {
        assert(views[i as int] == (*blocks@[i as int])@);
        let html = to_html(blocks[i]);
        match text_to_convert(html.as_str()) {
            Some(text) => {
                let markdown = markdown_of_html(text.as_str());
                parts.push(markdown);
            },
            None => {
                assert(block_text(views[i as int]) is None);
                return None;
            },
        }
        i += 1;
    }
    proof {
        assert(strings_view(parts@) =~= block_markdowns(views));
    }
    Some(join(&parts, "\n\n"))
}

/// The first of the first `n` definition lists that is malformed.
pub open spec fn first_malformed(lists: Seq<MarkupView>, n: int) -> Option<MarkupView>
    decreases n,
{
    if n <= 0 || n > lists.len() {
        None
    } else if first_malformed(lists, n - 1) is Some {
        first_malformed(lists, n - 1)
    } else if definitions_from(definition_items(lists[n - 1]), 0) is Err {
        Some(lists[n - 1])
    } else {
        None
    }
}

/// The first definition list of a document that is malformed.
pub open spec fn malformed_list(doc: MarkupView) -> Option<MarkupView> {
    first_malformed(definition_lists(doc), definition_lists(doc).len() as int)
}

proof fn lemma_first_malformed_stays(lists: Seq<MarkupView>, n: int, m: int)
    requires
        0 <= n <= m <= lists.len(),
        first_malformed(lists, n) is Some,
    ensures
        first_malformed(lists, m) == first_malformed(lists, n),
    decreases m - n,
{
    if n < m {
        lemma_first_malformed_stays(lists, n, m - 1);
    }
}

/// The definitions of a document, each as a term with the blocks of its
/// definition.
///
/// Fails exactly when a definition list of the document is malformed, with
/// what is wrong with the first such list, and that list.
pub fn definition_groups<'a>(doc: &'a Markup) -> (r: Result<
    Vec<DefinitionRef<'a>>,
    (Malformed, &'a Markup),
>)
    ensures
        match r {
            Ok(found) => definitions_of(doc@) == Ok::<Seq<Definition>, Malformed>(
                definitions_view(found@),
            ),
            Err((e, list)) => definitions_of(doc@) == Err::<Seq<Definition>, Malformed>(e)
                && malformed_list(doc@) == Some((*list)@),
        },
{
    let lists = select_elements(doc, "dl", "dl");
    let ghost lv = refs_view(lists@);
    let mut found: Vec<DefinitionRef<'a>> = Vec::new();
    let mut n: usize = 0;
    proof {
        assert(definitions_view(found@) =~= Seq::<Definition>::empty());
    }
    while n < lists.len()
        invariant
            lv == refs_view(lists@),
            lv == definition_lists(doc@),
            n <= lists.len(),
            definitions_of_lists(lv, n as int) == Ok::<Seq<Definition>, Malformed>(
                definitions_view(found@),
            ),
            first_malformed(lv, n as int) is None,
        decreases lists.len() - n,
    {
        assert(lv[n as int] == (*lists@[n as int])@);
        let items = select_elements(lists[n], "dt", "dd");
        match definitions_of_items(&items) {
            Ok(mut here) => {
                let ghost before = definitions_view(found@);
                let ghost added = definitions_view(here@);
                found.append(&mut here);
                assert(definitions_view(found@) =~= before + added);
            },
            Err(e) => {
                proof {
                    lemma_definitions_of_lists_err(lv, n + 1, lists@.len() as int);
                    lemma_first_malformed_stays(lv, n + 1, lists@.len() as int);
                }
                return Err((e, lists[n]));
            },
        }
        n += 1;
    }
    Ok(found)
}

/// A list that is malformed among the first `n` is malformed among the
/// first `m`, in the same way.
proof fn lemma_definitions_of_lists_err(lists: Seq<MarkupView>, n: int, m: int)
    requires
        0 <= n <= m <= lists.len(),
        definitions_of_lists(lists, n) is Err,
    ensures
        definitions_of_lists(lists, m) == definitions_of_lists(lists, n),
    decreases m - n,
{
    if n < m {
        lemma_definitions_of_lists_err(lists, n, m - 1);
    }
}

/// The tag and the content of each of the first `n` definitions that has
/// a content, in order.
pub open spec fn definition_texts(definitions: Seq<Definition>, n: int) -> Seq<
    (Seq<char>, Seq<char>),
>
    decreases n,
{
    if n <= 0 || n > definitions.len() {
        Seq::empty()
    } else {
        match content_text(definitions[n - 1].blocks) {
            Some(content) => definition_texts(definitions, n - 1).push(
                (tag_text(definitions[n - 1].term), content),
            ),
            None => definition_texts(definitions, n - 1),
        }
    }
}

/// The tags of those of the first `n` definitions that have no content,
/// in order.
pub open spec fn tags_without_content(definitions: Seq<Definition>, n: int) -> Seq<Seq<char>>
    decreases n,
{
    if n <= 0 || n > definitions.len() {
        Seq::empty()
    } else {
        match content_text(definitions[n - 1].blocks) {
            Some(_) => tags_without_content(definitions, n - 1),
            None => tags_without_content(definitions, n - 1).push(
                tag_text(definitions[n - 1].term),
            ),
        }
    }
}

/// What is read of the definitions of a document: the tag and the content
/// of each definition that has a content, and the tag of each that has
/// none.
pub struct Definitions {
    /// The tag and the content of each definition that has a content.
    pub read: Vec<(String, String)>,
    /// The tag of each definition whose content cannot be converted.
    pub left_out: Vec<String>,
}

/// Whether `r` is what the definitions of the document `doc` are sorted
/// into: those with a content, each with its tag, and the tags of those
/// without, both in order, or, where a definition list is malformed, what
/// is wrong with the first such list and that list as HTML.
pub open spec fn is_sorting_of(doc: MarkupView, r: Result<Definitions, Error>) -> bool {
    match r {
        Ok(found) => {
            &&& definitions_of(doc) is Ok
            &&& crate::artifact::defs_view(found.read@) == definition_texts(
                definitions_of(doc)->Ok_0,
                definitions_of(doc)->Ok_0.len() as int,
            )
            &&& strings_view(found.left_out@) == tags_without_content(
                definitions_of(doc)->Ok_0,
                definitions_of(doc)->Ok_0.len() as int,
            )
        },
        Err(Error::DefinitionListParsing(cause, list)) => {
            &&& definitions_of(doc) is Err
            &&& cause@ == malformed_message(definitions_of(doc)->Err_0)
            &&& malformed_list(doc) is Some
            &&& list@ == html_text(written(malformed_list(doc)->0))
        },
        Err(_) => false,
    }
}

/// Whether `r` is what the definitions of the document `doc` are read as:
/// the tag and the content of each definition that has a content, in
/// order, or, where a definition list is malformed, what is wrong with the
/// first such list and that list as HTML.
pub open spec fn is_definitions_of(doc: MarkupView, r: Result<Vec<(String, String)>, Error>) -> bool {
    match r {
        Ok(defs) => definitions_of(doc) is Ok && crate::artifact::defs_view(defs@)
            == definition_texts(
            definitions_of(doc)->Ok_0,
            definitions_of(doc)->Ok_0.len() as int,
        ),
        Err(Error::DefinitionListParsing(cause, list)) => {
            &&& definitions_of(doc) is Err
            &&& cause@ == malformed_message(definitions_of(doc)->Err_0)
            &&& malformed_list(doc) is Some
            &&& list@ == html_text(written(malformed_list(doc)->0))
        },
        Err(_) => false,
    }
}

/// The definitions of a document, sorted into those whose content can be
/// converted, each with the tag of its term and its content as markdown,
/// and those whose content cannot, each by the tag of its term.
///
/// Fails exactly when a definition list of the document is malformed:
/// definitions that come before any term, or several terms that share one
/// definition. Terms that are no definiendum are definitions like any
/// other here.
pub fn sorted_definitions(doc: &Markup) -> (r: Result<Definitions, Error>)
    ensures
        is_sorting_of(doc@, r),
{
    let groups = match definition_groups(doc) {
        Ok(groups) => groups,
        Err((e, list)) => {
            return Err(def_parsing_err(e, list));
        },
    };
    let ghost found = definitions_view(groups@);
    let mut read: Vec<(String, String)> = Vec::new();
    let mut left_out: Vec<String> = Vec::new();
    let mut i: usize = 0;
    proof {
        assert(crate::artifact::defs_view(read@) =~= definition_texts(found, 0));
        assert(strings_view(left_out@) =~= tags_without_content(found, 0));
    }
    while i < groups.len()
        invariant
            found == definitions_view(groups@),
            i <= groups.len(),
            crate::artifact::defs_view(read@) == definition_texts(found, i as int),
            strings_view(left_out@) == tags_without_content(found, i as int),
        decreases groups.len() - i,
    {
        assert(found[i as int] == groups@[i as int]@);
        let tag = tag_of_term(groups[i].term);
        match content_of_blocks(&groups[i].blocks) {
            Some(content) => {
                let ghost before = crate::artifact::defs_view(read@);
                read.push((tag, content));
                assert(crate::artifact::defs_view(read@) =~= before.push((tag@, content@)));
            },
            None => {
                let ghost before = strings_view(left_out@);
                left_out.push(tag);
                assert(strings_view(left_out@) =~= before.push(tag@));
            },
        }
        i += 1;
    }
    Ok(Definitions { read, left_out })
}

/// The definitions of a document: for each whose content can be
/// converted, the tag of its term and its content as markdown. A
/// definition whose content cannot be converted is left out as a whole;
/// [`sorted_definitions`] names it.
///
/// Fails exactly when a definition list of the document is malformed:
/// definitions that come before any term, or several terms that share one
/// definition. Terms that are no definiendum are definitions like any
/// other here.
pub fn definitions_from_html(doc: &Markup) -> (r: Result<Vec<(String, String)>, Error>)
    ensures
        is_definitions_of(doc@, r),
{
    match sorted_definitions(doc) {
        Ok(found) => Ok(found.read),
        Err(e) => Err(e),
    }
}

/// The definitions of a document given as the HTML that the converter made
/// of it: those of the tree that the parser makes of the HTML, taken as a
/// piece of the body of a document.
pub fn definitions_from_string(html: &str) -> (r: Result<Vec<(String, String)>, Error>)
    ensures
        is_definitions_of(parsed_body_fragment(html@), r),
{
    definitions_from_html(&parse_html_fragment(html))
}

} // verus!
