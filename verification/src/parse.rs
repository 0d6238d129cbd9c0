//! Logical units from a parsed document: from the syntax tree that the
//! document converter gives, or from the HTML it makes.

use vstd::prelude::*;
use crate::artifact::{is_units_of, str_view, units_of_html, Error};
use crate::dom::parsed_body_fragment;
use crate::grammar::{is_id_text, parsed_id};
use crate::logical_unit::{units_view, Kind, LogicalUnit, LogicalUnitView};
use crate::parser::{is_definiendum, logical_unit_definiendum};
use crate::text::{join, joined, strings_view};

verus! {

/// How a quotation is quoted.
#[derive(Debug, Clone, Copy, PartialEq, Eq, Structural)]
pub enum QuoteType {
    SingleQuote,
    DoubleQuote,
}

/// A piece of running text of a document.
#[derive(Debug, PartialEq, Eq)]
pub enum Inline {
    /// Text.
    Str(String),
    /// Emphasised text.
    Emph(Vec<Inline>),
    /// Strongly emphasised text.
    Strong(Vec<Inline>),
    /// A space between words.
    Space,
    /// A line break that the source has and the output need not have.
    SoftBreak,
    /// A line break.
    LineBreak,
    /// Quoted text.
    Quoted(QuoteType, Vec<Inline>),
    /// A link: its text and the address it leads to.
    Link(Vec<Inline>, String),
    /// An image: its alternative text and its address.
    Image(Vec<Inline>, String),
    /// Code.
    Code(String),
    /// Anything else.
    Other,
}

/// A block of a document.
#[derive(Debug, PartialEq, Eq)]
pub enum Block {
    /// Text that is no paragraph.
    Plain(Vec<Inline>),
    /// A paragraph.
    Para(Vec<Inline>),
    /// A definition list: each item a term with the blocks of each of its
    /// definitions.
    DefinitionList(Vec<(Vec<Inline>, Vec<Vec<Block>>)>),
    /// Anything else.
    Other,
}

/// A piece of running text as markdown.
pub open spec fn inline_text(inline: Inline) -> Seq<char>
    decreases inline, 0nat,
{
    match inline {
        Inline::Str(s) => s@,
        Inline::Emph(v) => "*"@ + inlines_text(v@) + "*"@,
        Inline::Strong(v) => "**"@ + inlines_text(v@) + "**"@,
        Inline::Space => " "@,
        Inline::SoftBreak => "\n"@,
        Inline::LineBreak => "\\\n"@,
        Inline::Quoted(QuoteType::SingleQuote, v) => "'"@ + inlines_text(v@) + "'"@,
        Inline::Quoted(QuoteType::DoubleQuote, v) => "\""@ + inlines_text(v@) + "\""@,
        Inline::Link(v, url) => "["@ + inlines_text(v@) + "]("@ + url@ + ")"@,
        Inline::Image(v, url) => "!["@ + inlines_text(v@) + "]("@ + url@ + ")"@,
        Inline::Code(s) => "`"@ + s@ + "`"@,
        Inline::Other => Seq::empty(),
    }
}

/// Running text as markdown: its pieces one after the other.
pub open spec fn inlines_text(inlines: Seq<Inline>) -> Seq<char>
    decreases inlines, 1nat,
{
    if inlines.len() == 0 {
        Seq::empty()
    } else {
        inlines_text(inlines.drop_last()) + inline_text(inlines.last())
    }
}

/// A block as markdown: the text of a paragraph or of plain text, nothing
/// for any other block.
pub open spec fn block_text(block: Block) -> Seq<char> {
    match block {
        Block::Plain(v) => inlines_text(v@),
        Block::Para(v) => inlines_text(v@),
        _ => Seq::empty(),
    }
}

/// The texts of `blocks`, each as markdown.
pub open spec fn block_texts(blocks: Seq<Block>) -> Seq<Seq<char>> {
    Seq::new(blocks.len(), |i: int| block_text(blocks[i]))
}

/// Blocks as markdown, with an empty line between each two.
pub open spec fn blocks_text(blocks: Seq<Block>) -> Seq<char> {
    joined(block_texts(blocks), "\n\n"@)
}

/// The definitions of a term as markdown: the blocks of each, with an
/// empty line between each two definitions.
pub open spec fn blocks_list_text(list: Seq<Vec<Block>>) -> Seq<char> {
    joined(Seq::new(list.len(), |i: int| blocks_text(list[i]@)), "\n\n"@)
}

/// Running text as markdown.
#[verifier::loop_isolation(false)]
pub fn pandoc_inlines_to_string(inlines: &Vec<Inline>) -> (r: String)
    ensures
        r@ == inlines_text(inlines@),
    decreases inlines,
{
    let mut r = String::new();
    let mut i: usize = 0;
    assert(inlines@.take(0) =~= Seq::<Inline>::empty());
    while i < inlines.len()
        invariant
            i <= inlines.len(),
            r@ == inlines_text(inlines@.take(i as int)),
        decreases inlines.len() - i,
    {
        proof {
            assert(inlines@.take(i + 1).drop_last() =~= inlines@.take(i as int));
            assert(inlines@.take(i + 1).last() == inlines@[i as int]);
        }
        r.push_str(pandoc_inline_to_string(&inlines[i]).as_str());
        i += 1;
    }
    assert(inlines@.take(inlines@.len() as int) =~= inlines@);
    r
}

/// `text` between `open` and `close`.
fn wrapped(open: &str, text: String, close: &str) -> (r: String)
    ensures
        r@ == open@ + text@ + close@,
{
    let mut r = open.to_owned();
    r.push_str(text.as_str());
    r.push_str(close);
    r
}

/// A piece of running text as markdown.
pub fn pandoc_inline_to_string(i: &Inline) -> (r: String)
    ensures
        r@ == inline_text(*i),
    decreases *i,
{
    match i {
        Inline::Str(s) => s.clone(),
        Inline::Emph(v) => wrapped("*", pandoc_inlines_to_string(v), "*"),
        Inline::Strong(v) => wrapped("**", pandoc_inlines_to_string(v), "**"),
        Inline::Space => " ".to_owned(),
        Inline::SoftBreak => "\n".to_owned(),
        Inline::LineBreak => "\\\n".to_owned(),
        Inline::Quoted(t, v) => match t {
            QuoteType::SingleQuote => wrapped("'", pandoc_inlines_to_string(v), "'"),
            QuoteType::DoubleQuote => wrapped("\"", pandoc_inlines_to_string(v), "\""),
        },
        Inline::Link(v, url) => {
            let mut r = wrapped("[", pandoc_inlines_to_string(v), "](");
            r.push_str(url.as_str());
            r.push_str(")");
            r
        },
        Inline::Image(v, url) => {
            let mut r = wrapped("![", pandoc_inlines_to_string(v), "](");
            r.push_str(url.as_str());
            r.push_str(")");
            r
        },
        Inline::Code(s) => wrapped("`", s.clone(), "`"),
        Inline::Other => String::new(),
    }
}

/// A block as markdown.
pub fn pandoc_block_to_string(b: &Block) -> (r: String)
    ensures
        r@ == block_text(*b),
{
    match b {
        Block::Plain(v) => pandoc_inlines_to_string(v),
        Block::Para(v) => pandoc_inlines_to_string(v),
        _ => String::new(),
    }
}

/// Blocks as markdown, with an empty line between each two.
pub fn pandoc_blocks_to_string(blocks: &Vec<Block>) -> (r: String)
    ensures
        r@ == blocks_text(blocks@),
{
    let mut parts: Vec<String> = Vec::new();
    let mut i: usize = 0;
    while i < blocks.len()
        invariant
            i <= blocks.len(),
            parts@.len() == i,
            forall|k: int| 0 <= k < i ==> (#[trigger] parts@[k])@ == block_text(blocks@[k]),
        decreases blocks.len() - i,
    {
        parts.push(pandoc_block_to_string(&blocks[i]));
        i += 1;
    }
    assert(strings_view(parts@) =~= block_texts(blocks@));
    join(&parts, "\n\n")
}

/// The definitions of a term as markdown, with an empty line between each
/// two.
pub fn pandoc_blocks_list_to_string(blocks_list: &Vec<Vec<Block>>) -> (r: String)
    ensures
        r@ == blocks_list_text(blocks_list@),
{
    let mut parts: Vec<String> = Vec::new();
    let mut i: usize = 0;
    while i < blocks_list.len()
        invariant
            i <= blocks_list.len(),
            parts@.len() == i,
            forall|k: int| 0 <= k < i ==> (#[trigger] parts@[k])@ == blocks_text(blocks_list@[k]@),
        decreases blocks_list.len() - i,
    {
        parts.push(pandoc_blocks_to_string(&blocks_list[i]));
        i += 1;
    }
    assert(strings_view(parts@) =~= Seq::new(
        blocks_list@.len(),
        |i: int| blocks_text(blocks_list@[i]@),
    ));
    join(&parts, "\n\n")
}

/// The identifier that a term defines, if it does. See
/// [`definiendum_in`].
pub open spec fn definiendum_of(inline: Inline) -> Option<Seq<char>>
    decreases inline, 0nat,
{
    match inline {
        Inline::Str(s) => if is_definiendum(s@) {
            Some(s@.subrange(1, s@.len() - 1))
        } else {
            None
        },
        Inline::Emph(v) => definiendum_in(v@),
        Inline::Strong(v) => definiendum_in(v@),
        Inline::Link(v, _) => definiendum_in(v@),
        _ => None,
    }
}

/// The identifier that the running text of a term defines, if it does:
/// the text is a single piece, and that piece is a definiendum, or an
/// emphasis, a strong emphasis or a link around a text that defines the
/// identifier in turn.
pub open spec fn definiendum_in(tags: Seq<Inline>) -> Option<Seq<char>>
    decreases tags, 1nat,
{
    if tags.len() == 1 {
        definiendum_of(tags[0])
    } else {
        None
    }
}

/// The identifier that the running text of a term defines, if it does.
/// Only a term of a single piece defines a unit.
pub fn logical_unit_definiendum_of(tags: &Vec<Inline>) -> (r: Option<String>)
    ensures
        match r {
            Some(id) => definiendum_in(tags@) == Some(id@) && is_id_text(id@),
            None => definiendum_in(tags@) is None,
        },
    decreases tags,
{
    if tags.len() != 1 {
        return None;
    }
    match &tags[0] {
        Inline::Str(s) => match logical_unit_definiendum(s.as_str()) {
            Ok(id) => Some(id),
            Err(_) => None,
        },
        Inline::Emph(v) => logical_unit_definiendum_of(v),
        Inline::Strong(v) => logical_unit_definiendum_of(v),
        Inline::Link(v, _) => logical_unit_definiendum_of(v),
        _ => None,
    }
}

/// An item of a definition list: the running text of its term and the
/// blocks of each of its definitions.
pub type DefinitionItem = (Vec<Inline>, Vec<Vec<Block>>);

/// The unit that an item of a definition list defines, if its term defines
/// an identifier: a requirement with that identifier and the definitions
/// of the item as its content.
pub open spec fn unit_of_item(file: Option<Seq<char>>, item: DefinitionItem) -> Option<
    LogicalUnitView,
> {
    match definiendum_in(item.0@) {
        Some(id) => Some(
            LogicalUnitView {
                id: parsed_id(id).unwrap(),
                kind: Kind::Requirement,
                repo: None,
                file,
                line: None,
                content: blocks_list_text(item.1@),
                references: Seq::empty(),
            },
        ),
        None => None,
    }
}

/// The units that the first `n` items of a definition list define.
pub open spec fn units_of_items(file: Option<Seq<char>>, items: Seq<DefinitionItem>, n: int) -> Seq<
    LogicalUnitView,
>
    decreases n,
{
    if n <= 0 || n > items.len() {
        Seq::empty()
    } else {
        match unit_of_item(file, items[n - 1]) {
            Some(unit) => units_of_items(file, items, n - 1).push(unit),
            None => units_of_items(file, items, n - 1),
        }
    }
}

/// The units that the first `n` blocks of a document define: those of its
/// definition lists, in order.
pub open spec fn units_of_blocks(file: Option<Seq<char>>, blocks: Seq<Block>, n: int) -> Seq<
    LogicalUnitView,
>
    decreases n,
{
    if n <= 0 || n > blocks.len() {
        Seq::empty()
    } else {
        units_of_blocks(file, blocks, n - 1) + (match blocks[n - 1] {
            Block::DefinitionList(items) => units_of_items(file, items@, items@.len() as int),
            _ => Seq::empty(),
        })
    }
}

/// The logical units of a definition list: one for each item whose term
/// defines an identifier, in order.
pub fn logical_units_of_deflist(path: Option<&str>, deflist: &Vec<DefinitionItem>) -> (r: Vec<
    LogicalUnit,
>)
    ensures
        units_view(r@) == units_of_items(str_view(path), deflist@, deflist@.len() as int),
{
    let ghost fv = str_view(path);
    let mut r: Vec<LogicalUnit> = Vec::new();
    let mut i: usize = 0;
    assert(units_view(r@) =~= units_of_items(fv, deflist@, 0));
    while i < deflist.len()
        invariant
            fv == str_view(path),
            i <= deflist.len(),
            units_view(r@) == units_of_items(fv, deflist@, i as int),
        decreases deflist.len() - i,
    {
        match logical_unit_definiendum_of(&deflist[i].0) {
            Some(id) => {
                let contents = pandoc_blocks_list_to_string(&deflist[i].1);
                match LogicalUnit::new(
                    None,
                    path,
                    None,
                    Kind::Requirement,
                    id.as_str(),
                    contents.as_str(),
                ) {
                    Ok(unit) => {
                        let ghost before = units_view(r@);
                        r.push(unit);
                        assert(units_view(r@) =~= before.push(unit@));
                    },
                    Err(_) => {},
                }
            },
            None => {},
        }
        i += 1;
    }
    r
}

/// The logical units of a document given as its blocks: those of each of
/// its definition lists, in order.
pub fn parse_ast(path: Option<&str>, blocks: &Vec<Block>) -> (r: Vec<LogicalUnit>)
    ensures
        units_view(r@) == units_of_blocks(str_view(path), blocks@, blocks@.len() as int),
{
    let ghost fv = str_view(path);
    let mut r: Vec<LogicalUnit> = Vec::new();
    let mut i: usize = 0;
    assert(units_view(r@) =~= units_of_blocks(fv, blocks@, 0));
    while i < blocks.len()
        invariant
            fv == str_view(path),
            i <= blocks.len(),
            units_view(r@) == units_of_blocks(fv, blocks@, i as int),
        decreases blocks.len() - i,
    {
        let ghost before = units_view(r@);
        match &blocks[i] {
            Block::DefinitionList(items) => {
                let mut more = logical_units_of_deflist(path, items);
                let ghost added = units_view(more@);
                r.append(&mut more);
                assert(units_view(r@) =~= before + added);
            },
            _ => {
                assert(before + Seq::<LogicalUnitView>::empty() =~= before);
            },
        }
        i += 1;
    }
    r
}

/// The logical units of a document without a source, given as the HTML
/// that the converter made of it: a requirement for each definition whose
/// term is a definiendum and whose content can be converted, in the order
/// of the document.
pub fn string(html: &str) -> (r: Result<Vec<LogicalUnit>, Error>)
    ensures
        is_units_of(None, None, parsed_body_fragment(html@), r),
{
    units_of_html(None, None, html)
}

/// The logical units of the document at `path`, given as the HTML that the
/// converter made of it.
pub fn file(path: &str, html: &str) -> (r: Result<Vec<LogicalUnit>, Error>)
    ensures
        is_units_of(None, Some(path@), parsed_body_fragment(html@), r),
{
    units_of_html(None, Some(path), html)
}

} // verus!
