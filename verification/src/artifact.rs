//! Artifacts: the files that logical units are found in.

use vstd::prelude::*;
use vstd::std_specs::cmp::PartialEqSpecImpl;
use crate::grammar::parsed_id;
use crate::logical_unit::{
    opt_repo_view, unit_display_text, units_view, Kind, LogicalUnit, LogicalUnitView,
};
use crate::dom::{html_text, parse_html_fragment, parsed_body_fragment, written};
use crate::markup::{Markup, MarkupView};
use crate::pandoc::{
    content_of_blocks, content_text, def_parsing_err, definition_groups, definitions_of,
    definitions_view, id_of_term, malformed_list, malformed_message, term_id, Definition,
    DefinitionRef,
};
use crate::parser::{
    find_tag_id, first_definiendum_from, is_definiendum, logical_unit_definiendum,
};
use crate::repo::{opt_view, LocationView, Repo};
use crate::text::{chars_of, same_text, string_of_range};

verus! {

/// What can go wrong when an artifact is read.
#[derive(Debug, Clone, PartialEq, Eq)]
pub enum Error {
    /// No kind of source file has this extension.
    SourceFileExt(String),
    /// The file has no extension to tell its kind by.
    SourceFileNoExt(String),
    /// The definitions of the artifact could not be read.
    Definitions(crate::pandoc::Error),
}

impl Error {
    /// A message that names the cause.
    pub fn to_string(&self) -> (r: String)
        ensures
            r@ == match self {
                Error::SourceFileExt(ext) => "no source file defined file for "@ + ext@
                    + " files"@,
                Error::SourceFileNoExt(path) => "cannot determine source file for "@ + path@
                    + ", because it has no extension"@,
                Error::Definitions(cause) => "while parsing artifact: "@ + (match cause {
                    crate::pandoc::Error::PandocData(what) => "Processing data from pandoc: "@
                        + what@,
                    crate::pandoc::Error::DefinitionListParsing(what, list) =>
                        "Parsing definition list. Encountered "@ + what@ + " while parsing `"@
                            + list@ + "`"@,
                }),
            },
    {
        match self {
            Error::SourceFileExt(ext) => {
                let mut r = "no source file defined file for ".to_owned();
                r.push_str(ext.as_str());
                r.push_str(" files");
                r
            },
            Error::SourceFileNoExt(path) => {
                let mut r = "cannot determine source file for ".to_owned();
                r.push_str(path.as_str());
                r.push_str(", because it has no extension");
                r
            },
            Error::Definitions(cause) => {
                let mut r = "while parsing artifact: ".to_owned();
                r.push_str(cause.to_string().as_str());
                r
            },
        }
    }
}

/// The kinds of files that units are looked for in.
#[derive(Debug, Clone, Copy, PartialEq, Eq, Structural)]
pub enum SourceFileKind {
    Markdown,
    Rust,
}

/// The index of the last `c` among the first `n` characters of `s`.
pub open spec fn last_index_of(s: Seq<char>, c: char, n: int) -> Option<int>
    decreases n,
{
    if n <= 0 || n > s.len() {
        None
    } else if s[n - 1] == c {
        Some(n - 1)
    } else {
        last_index_of(s, c, n - 1)
    }
}

/// Where the last component among the first `n` characters of a path
/// ends. The components of a path stand between `/`; a `/` at the end and
/// a component `.` count for nothing.
///
/// A path is read as text here, and `/` alone parts its components, so
/// that a path has the same file name and extension on every platform.
pub open spec fn component_end(path: Seq<char>, n: int) -> int
    decreases n,
{
    if n <= 0 || n > path.len() {
        0
    } else if path[n - 1] == '/' {
        component_end(path, n - 1)
    } else if path[n - 1] == '.' && (n == 1 || path[n - 2] == '/') {
        component_end(path, n - 1)
    } else {
        n
    }
}

/// The name of the file at `path`, written with `/` between its
/// components: the last component, as `Path::file_name` gives it. A path
/// that ends in `..`, and a path without components, has none.
pub open spec fn file_name(path: Seq<char>) -> Option<Seq<char>> {
    let end = component_end(path, path.len() as int);
    let start = match last_index_of(path, '/', end) {
        Some(i) => i + 1,
        None => 0,
    };
    if end <= 0 || path.subrange(start, end) == seq!['.', '.'] {
        None
    } else {
        Some(path.subrange(start, end))
    }
}

/// The extension of the file at `path`, as `Path::extension` gives it:
/// what follows the last dot of the name of the file, unless that dot
/// starts the name. A path without a file name has none.
pub open spec fn extension(path: Seq<char>) -> Option<Seq<char>> {
    match file_name(path) {
        Some(name) => match last_index_of(name, '.', name.len() as int) {
            Some(i) => if i > 0 {
                Some(name.subrange(i + 1, name.len() as int))
            } else {
                None
            },
            None => None,
        },
        None => None,
    }
}

/// The kind of the source file at `path`, by its extension, or the
/// extension that no kind has, or nothing where there is no extension.
pub open spec fn kind_of_path(path: Seq<char>) -> Result<SourceFileKind, Option<Seq<char>>> {
    match extension(path) {
        Some(ext) => if ext == "md"@ {
            Ok(SourceFileKind::Markdown)
        } else if ext == "rs"@ {
            Ok(SourceFileKind::Rust)
        } else {
            Err(Some(ext))
        },
        None => Err(None),
    }
}

/// The index of the last `c` among the first `end` characters of `s`.
fn find_last(s: &Vec<char>, c: char, end: usize) -> (r: Option<usize>)
    requires
        end <= s.len(),
    ensures
        match r {
            Some(i) => last_index_of(s@, c, end as int) == Some(i as int) && i < end,
            None => last_index_of(s@, c, end as int) is None,
        },
{
    let mut n = end;
    while n > 0
        invariant
            n <= end <= s.len(),
            last_index_of(s@, c, end as int) == last_index_of(s@, c, n as int),
        decreases n,
    {
        if s[n - 1] == c {
            return Some(n - 1);
        }
        n -= 1;
    }
    None
}

/// Where the last component of a path ends.
fn find_component_end(s: &Vec<char>) -> (r: usize)
    ensures
        r == component_end(s@, s@.len() as int),
        r <= s.len(),
{
    let mut n = s.len();
    while n > 0
        invariant
            n <= s.len(),
            component_end(s@, s@.len() as int) == component_end(s@, n as int),
        decreases n,
    {
        if s[n - 1] == '/' || (s[n - 1] == '.' && (n == 1 || s[n - 2] == '/')) {
            n -= 1;
        } else {
            return n;
        }
    }
    0
}

/// The name of the file at `path`: its last component, if it has one that
/// is not `..`.
pub fn name_of_file(path: &str) -> (r: Option<String>)
    ensures
        match r {
            Some(name) => file_name(path@) == Some(name@),
            None => file_name(path@) is None,
        },
{
    let chars = chars_of(path);
    let end = find_component_end(&chars);
    if end == 0 {
        return None;
    }
    let start = match find_last(&chars, '/', end) {
        Some(i) => i + 1,
        None => 0,
    };
    if end - start == 2 && chars[start] == '.' && chars[start + 1] == '.' {
        assert(path@.subrange(start as int, end as int) =~= seq!['.', '.']);
        None
    } else {
        assert(path@.subrange(start as int, end as int) != seq!['.', '.']) by {
            let name = path@.subrange(start as int, end as int);
            if name == seq!['.', '.'] {
                assert(name.len() == 2);
                assert(name[0] == '.' && name[1] == '.');
            }
        }
        Some(string_of_range(&chars, start, end))
    }
}

/// The extension of the file at `path`.
pub fn extension_of(path: &str) -> (r: Option<String>)
    ensures
        match r {
            Some(ext) => extension(path@) == Some(ext@),
            None => extension(path@) is None,
        },
{
    let name = match name_of_file(path) {
        Some(name) => name,
        None => {
            return None;
        },
    };
    let chars = chars_of(name.as_str());
    match find_last(&chars, '.', chars.len()) {
        Some(i) => if i > 0 {
            Some(string_of_range(&chars, i + 1, chars.len()))
        } else {
            None
        },
        None => None,
    }
}

impl SourceFileKind {
    /// The kind of the source file at `path`: markdown for `.md`, Rust for
    /// `.rs`.
    ///
    /// Fails on any other extension, with the extension, and on a path
    /// without extension, with the path.
    pub fn of_path(path: &str) -> (r: Result<SourceFileKind, Error>)
        ensures
            match r {
                Ok(kind) => kind_of_path(path@) == Ok::<SourceFileKind, Option<Seq<char>>>(kind),
                Err(Error::SourceFileExt(ext)) => kind_of_path(path@) == Err::<
                    SourceFileKind,
                    Option<Seq<char>>,
                >(Some(ext@)),
                Err(Error::SourceFileNoExt(p)) => kind_of_path(path@) == Err::<
                    SourceFileKind,
                    Option<Seq<char>>,
                >(None) && p@ == path@,
                Err(_) => false,
            },
    {
        match extension_of(path) {
            Some(ext) => {
                if same_text(ext.as_str(), "md") {
                    Ok(SourceFileKind::Markdown)
                } else if same_text(ext.as_str(), "rs") {
                    Ok(SourceFileKind::Rust)
                } else {
                    Err(Error::SourceFileExt(ext))
                }
            },
            None => Err(Error::SourceFileNoExt(path.to_owned())),
        }
    }
}

/// A definition as the converter gives it: the tag of its term and its
/// content.
pub type DefView = (Seq<char>, Seq<char>);

/// The definitions of `defs`, each by its view.
pub open spec fn defs_view(defs: Seq<(String, String)>) -> Seq<DefView> {
    Seq::new(defs.len(), |i: int| (defs[i].0@, defs[i].1@))
}

/// The unit that a definition defines, if its tag is a definiendum: a
/// requirement with the identifier of the definiendum and the content of
/// the definition.
pub open spec fn unit_of_def(
    repo: Option<LocationView>,
    file: Option<Seq<char>>,
    def: DefView,
) -> Option<LogicalUnitView> {
    if is_definiendum(def.0) {
        Some(
            LogicalUnitView {
                id: parsed_id(def.0.subrange(1, def.0.len() - 1)).unwrap(),
                kind: Kind::Requirement,
                repo,
                file,
                line: None,
                content: def.1,
                references: Seq::empty(),
            },
        )
    } else {
        None
    }
}

/// The units that the first `n` definitions define, in order.
pub open spec fn units_of_defs(
    repo: Option<LocationView>,
    file: Option<Seq<char>>,
    defs: Seq<DefView>,
    n: int,
) -> Seq<LogicalUnitView>
    decreases n,
{
    if n <= 0 || n > defs.len() {
        Seq::empty()
    } else {
        match unit_of_def(repo, file, defs[n - 1]) {
            Some(unit) => units_of_defs(repo, file, defs, n - 1).push(unit),
            None => units_of_defs(repo, file, defs, n - 1),
        }
    }
}

/// A copy of an optional repo.
fn copy_repo(repo: Option<&Repo>) -> (r: Option<Repo>)
    ensures
        opt_repo_view(r) == match repo {
            Some(x) => Some(x@),
            None => None,
        },
{
    match repo {
        Some(x) => Some(x.copy()),
        None => None,
    }
}

/// The view of an optional reference to a repo.
pub open spec fn repo_ref_view(repo: Option<&Repo>) -> Option<LocationView> {
    match repo {
        Some(x) => Some(x@),
        None => None,
    }
}

/// The view of an optional string slice.
pub open spec fn str_view(s: Option<&str>) -> Option<Seq<char>> {
    match s {
        Some(x) => Some(x@),
        None => None,
    }
}

/// The logical units among the definitions of a document: one for each
/// definition whose tag is a definiendum, in the order of the definitions.
/// The others are left out.
pub fn logical_units_of_defs(
    repo: Option<&Repo>,
    file: Option<&str>,
    defs: &Vec<(String, String)>,
) -> (r: Vec<LogicalUnit>)
    ensures
        units_view(r@) == units_of_defs(
            repo_ref_view(repo),
            str_view(file),
            defs_view(defs@),
            defs@.len() as int,
        ),
{
    let ghost rv = repo_ref_view(repo);
    let ghost fv = str_view(file);
    let ghost dv = defs_view(defs@);
    let mut r: Vec<LogicalUnit> = Vec::new();
    let mut i: usize = 0;
    assert(units_view(r@) =~= units_of_defs(rv, fv, dv, 0));
    while i < defs.len()
        invariant
            rv == repo_ref_view(repo),
            fv == str_view(file),
            dv == defs_view(defs@),
            i <= defs.len(),
            units_view(r@) == units_of_defs(rv, fv, dv, i as int),
        decreases defs.len() - i,
    {
        assert(dv[i as int] == (defs@[i as int].0@, defs@[i as int].1@));
        match logical_unit_definiendum(defs[i].0.as_str()) {
            Ok(id) => {
                match LogicalUnit::new(
                    copy_repo(repo),
                    file,
                    None,
                    Kind::Requirement,
                    id.as_str(),
                    defs[i].1.as_str(),
                ) {
                    Ok(unit) => {
                        let ghost before = units_view(r@);
                        r.push(unit);
                        assert(units_view(r@) =~= before.push(unit@));
                    },
                    Err(_) => {},
                }
            },
            Err(_) => {},
        }
        i += 1;
    }
    r
}

/// The unit that a definition defines, if its term defines an identifier
/// and its blocks can be converted: a requirement with that identifier, in
/// the given repo and file, with what the blocks of the definition convert
/// to as its content.
pub open spec fn unit_of_definition(
    repo: Option<LocationView>,
    file: Option<Seq<char>>,
    definition: Definition,
) -> Option<LogicalUnitView> {
    match (term_id(definition.term), content_text(definition.blocks)) {
        (Some(id), Some(content)) => Some(
            LogicalUnitView {
                id: parsed_id(id).unwrap(),
                kind: Kind::Requirement,
                repo,
                file,
                line: None,
                content,
                references: Seq::empty(),
            },
        ),
        _ => None,
    }
}

/// The units that the first `n` definitions define, in order.
pub open spec fn units_of_definitions(
    repo: Option<LocationView>,
    file: Option<Seq<char>>,
    definitions: Seq<Definition>,
    n: int,
) -> Seq<LogicalUnitView>
    decreases n,
{
    if n <= 0 || n > definitions.len() {
        Seq::empty()
    } else {
        match unit_of_definition(repo, file, definitions[n - 1]) {
            Some(unit) => units_of_definitions(repo, file, definitions, n - 1).push(unit),
            None => units_of_definitions(repo, file, definitions, n - 1),
        }
    }
}

/// The logical units of the definitions of a document: one requirement for
/// each definition whose term defines an identifier and whose blocks can
/// be converted, in the order of the definitions. The content of each is
/// what the blocks of its definition convert to.
pub fn logical_units_of_definitions(
    repo: Option<&Repo>,
    file: Option<&str>,
    definitions: &Vec<DefinitionRef>,
) -> (r: Vec<LogicalUnit>)
    ensures
        units_view(r@) == units_of_definitions(
            repo_ref_view(repo),
            str_view(file),
            definitions_view(definitions@),
            definitions@.len() as int,
        ),
{
    let ghost rv = repo_ref_view(repo);
    let ghost fv = str_view(file);
    let ghost dv = definitions_view(definitions@);
    let mut r: Vec<LogicalUnit> = Vec::new();
    let mut i: usize = 0;
    assert(units_view(r@) =~= units_of_definitions(rv, fv, dv, 0));
    while i < definitions.len()
        invariant
            rv == repo_ref_view(repo),
            fv == str_view(file),
            dv == definitions_view(definitions@),
            i <= definitions.len(),
            units_view(r@) == units_of_definitions(rv, fv, dv, i as int),
        decreases definitions.len() - i,
    {
        assert(dv[i as int] == definitions@[i as int]@);
        match id_of_term(definitions[i].term) {
            Some(id) => match content_of_blocks(&definitions[i].blocks) {
                Some(content) => match LogicalUnit::new(
                    copy_repo(repo),
                    file,
                    None,
                    Kind::Requirement,
                    id.as_str(),
                    content.as_str(),
                ) {
                    Ok(unit) => {
                        let ghost before = units_view(r@);
                        r.push(unit);
                        assert(units_view(r@) =~= before.push(unit@));
                    },
                    Err(_) => {},
                },
                None => {},
            },
            None => {},
        }
        i += 1;
    }
    r
}

/// The units that a document defines: those of the definitions of its
/// definition lists.
pub open spec fn units_of_document(
    repo: Option<LocationView>,
    file: Option<Seq<char>>,
    doc: MarkupView,
) -> Seq<LogicalUnitView> {
    units_of_definitions(
        repo,
        file,
        definitions_of(doc)->Ok_0,
        definitions_of(doc)->Ok_0.len() as int,
    )
}

/// Whether `e` is the error for the first malformed definition list of the
/// document `doc`: what is wrong with the list, and the list as HTML.
pub open spec fn is_malformed_error(doc: MarkupView, e: Error) -> bool {
    match e {
        Error::Definitions(crate::pandoc::Error::DefinitionListParsing(cause, list)) => {
            &&& definitions_of(doc) is Err
            &&& cause@ == malformed_message(definitions_of(doc)->Err_0)
            &&& malformed_list(doc) is Some
            &&& list@ == html_text(written(malformed_list(doc)->0))
        },
        _ => false,
    }
}

/// Whether `r` is what the units of the document `doc` are read as: the
/// units that the document defines, or, where a definition list is
/// malformed, the error for the first such list.
pub open spec fn is_units_of(
    repo: Option<LocationView>,
    file: Option<Seq<char>>,
    doc: MarkupView,
    r: Result<Vec<LogicalUnit>, Error>,
) -> bool {
    match r {
        Ok(units) => definitions_of(doc) is Ok && units_view(units@) == units_of_document(
            repo,
            file,
            doc,
        ),
        Err(e) => is_malformed_error(doc, e),
    }
}

/// The logical units of a document: one requirement for each definition
/// of its definition lists whose term defines an identifier and whose
/// content can be converted. The other definitions are left out, each as
/// a whole.
///
/// Fails exactly when a definition list of the document is malformed.
pub fn units_of_markup(repo: Option<&Repo>, file: Option<&str>, doc: &Markup) -> (r: Result<
    Vec<LogicalUnit>,
    Error,
>)
    ensures
        is_units_of(repo_ref_view(repo), str_view(file), doc@, r),
{
    match definition_groups(doc) {
        Ok(groups) => Ok(logical_units_of_definitions(repo, file, &groups)),
        Err((e, list)) => Err(Error::Definitions(def_parsing_err(e, list))),
    }
}

/// The logical units of a document given as the HTML that the converter
/// made of it: those of the tree that the parser makes of the HTML, taken
/// as a piece of the body of a document.
pub fn units_of_html(repo: Option<&Repo>, file: Option<&str>, html: &str) -> (r: Result<
    Vec<LogicalUnit>,
    Error,
>)
    ensures
        is_units_of(repo_ref_view(repo), str_view(file), parsed_body_fragment(html@), r),
{
    units_of_markup(repo, file, &parse_html_fragment(html))
}

/// Where the line that starts at `i` ends: at the next line feed, or with
/// the text.
pub open spec fn line_end(s: Seq<char>, i: int) -> int
    decreases s.len() - i,
{
    if 0 <= i < s.len() && s[i] != '\n' {
        line_end(s, i + 1)
    } else {
        i
    }
}

/// A line without the carriage return at its end, if it has one.
pub open spec fn without_cr(line: Seq<char>) -> Seq<char> {
    if line.len() > 0 && line.last() == '\r' {
        line.drop_last()
    } else {
        line
    }
}

/// The lines of a text from `i` on. A line ends with a line feed, or a
/// carriage return and a line feed, which are not part of it; the last line
/// may end with the text, and is then taken as it stands.
pub open spec fn lines_from(s: Seq<char>, i: int) -> Seq<Seq<char>>
    decreases s.len() - i,
{
    if 0 <= i < s.len() {
        let e = line_end(s, i);
        if i <= e < s.len() {
            seq![without_cr(s.subrange(i, e))] + lines_from(s, e + 1)
        } else {
            seq![s.subrange(i, s.len() as int)]
        }
    } else {
        Seq::empty()
    }
}

pub proof fn lemma_line_end(s: Seq<char>, i: int)
    requires
        0 <= i <= s.len(),
    ensures
        i <= line_end(s, i) <= s.len(),
    decreases s.len() - i,
{
    if i < s.len() && s[i] != '\n' {
        lemma_line_end(s, i + 1);
    }
}

/// The lines of a text.
pub fn lines_of(text: &str) -> (r: Vec<String>)
    ensures
        crate::text::strings_view(r@) == lines_from(text@, 0),
{
    let s = chars_of(text);
    let mut r: Vec<String> = Vec::new();
    let mut i: usize = 0;
    assert(crate::text::strings_view(r@) + lines_from(text@, 0) =~= lines_from(text@, 0));
    while i < s.len()
        invariant
            s@ == text@,
            i <= s.len(),
            crate::text::strings_view(r@) + lines_from(text@, i as int) == lines_from(text@, 0),
        decreases s.len() - i,
    {
        let mut e = i;
        while e < s.len() && s[e] != '\n'
            invariant
                i <= e <= s.len(),
                line_end(text@, i as int) == line_end(text@, e as int),
                s@ == text@,
            decreases s.len() - e,
        {
            e += 1;
        }
        let stop = if e < s.len() && e > i && s[e - 1] == '\r' {
            e - 1
        } else {
            e
        };
        let ghost before = crate::text::strings_view(r@);
        let line = string_of_range(&s, i, stop);
        proof {
            if e < s.len() {
                assert(line@ =~= without_cr(text@.subrange(i as int, e as int)));
            }
        }
        r.push(line);
        proof {
            lemma_line_end(text@, i as int);
            assert(crate::text::strings_view(r@) =~= before.push(line@));
            if e < s.len() {
                assert(before + (seq![line@] + lines_from(text@, e + 1)) =~= before.push(line@)
                    + lines_from(text@, e + 1));
            } else {
                assert(before + seq![line@] =~= before.push(line@) + lines_from(
                    text@,
                    s.len() as int,
                ));
            }
        }
        if e < s.len() {
            i = e + 1;
        } else {
            i = e;
        }
    }
    assert(crate::text::strings_view(r@) + Seq::<Seq<char>>::empty() =~= crate::text::strings_view(
        r@,
    ));
    r
}

/// The unit that line `n` of a source file marks, if it holds a
/// definiendum: an implementation with the identifier of the first
/// definiendum of the line, without content.
pub open spec fn unit_of_line(
    repo: Option<LocationView>,
    path: Seq<char>,
    n: int,
    line: Seq<char>,
) -> Option<LogicalUnitView> {
    match first_definiendum_from(line, 0) {
        Some(id) => Some(
            LogicalUnitView {
                id: parsed_id(id).unwrap(),
                kind: Kind::Implementation,
                repo,
                file: Some(path),
                line: Some(n as u64),
                content: Seq::empty(),
                references: Seq::empty(),
            },
        ),
        None => None,
    }
}

/// The units that the first `n` lines of a source file mark, in order.
pub open spec fn units_of_lines(
    repo: Option<LocationView>,
    path: Seq<char>,
    lines: Seq<Seq<char>>,
    n: int,
) -> Seq<LogicalUnitView>
    decreases n,
{
    if n <= 0 || n > lines.len() {
        Seq::empty()
    } else {
        match unit_of_line(repo, path, n - 1, lines[n - 1]) {
            Some(unit) => units_of_lines(repo, path, lines, n - 1).push(unit),
            None => units_of_lines(repo, path, lines, n - 1),
        }
    }
}

/// `s` without the elements that occur before in it: of equal elements the
/// first stays.
pub open spec fn without_repeats<T>(s: Seq<T>) -> Seq<T>
    decreases s.len(),
{
    if s.len() == 0 {
        Seq::empty()
    } else if without_repeats(s.drop_last()).contains(s.last()) {
        without_repeats(s.drop_last())
    } else {
        without_repeats(s.drop_last()).push(s.last())
    }
}

/// What is left of a sequence without its repeats holds what the sequence
/// holds, and each of it once.
pub proof fn lemma_without_repeats<T>(s: Seq<T>)
    ensures
        without_repeats(s).no_duplicates(),
        forall|i: int| 0 <= i < s.len() ==> without_repeats(s).contains(#[trigger] s[i]),
        forall|k: int|
            0 <= k < without_repeats(s).len() ==> s.contains(#[trigger] without_repeats(s)[k]),
    decreases s.len(),
{
    if s.len() > 0 {
        let head = s.drop_last();
        let kept = without_repeats(head);
        let all = without_repeats(s);
        lemma_without_repeats(head);
        if kept.contains(s.last()) {
            assert(all == kept);
        } else {
            assert(all == kept.push(s.last()));
            assert(all[kept.len() as int] == s.last());
        }
        assert forall|i: int| 0 <= i < s.len() implies all.contains(#[trigger] s[i]) by {
            if i < s.len() - 1 {
                assert(s[i] == head[i]);
                assert(kept.contains(head[i]));
                let k = choose|k: int| 0 <= k < kept.len() && kept[k] == head[i];
                assert(all[k] == s[i]);
            }
        }
        assert forall|k: int| 0 <= k < all.len() implies s.contains(#[trigger] all[k]) by {
            if k < kept.len() {
                assert(all[k] == kept[k]);
                assert(head.contains(kept[k]));
                let i = choose|i: int| 0 <= i < head.len() && head[i] == kept[k];
                assert(s[i] == all[k]);
            } else {
                assert(s[s.len() - 1] == all[k]);
            }
        }
    }
}

/// The first `n` units as they are displayed, a space before each.
pub open spec fn units_text(units: Seq<LogicalUnitView>, n: int) -> Seq<char>
    decreases n,
{
    if n <= 0 || n > units.len() {
        Seq::empty()
    } else {
        units_text(units, n - 1) + " "@ + unit_display_text(units[n - 1])
    }
}

/// A file in which units are looked for.
pub struct SourceFile<'a> {
    kind: SourceFileKind,
    path: &'a str,
    repo: Option<&'a Repo>,
}

impl<'a> SourceFile<'a> {
    /// The kind of the file.
    pub closed spec fn kind(&self) -> SourceFileKind {
        self.kind
    }

    /// The path of the file.
    pub closed spec fn path(&self) -> Seq<char> {
        self.path@
    }

    /// The repo of the file, if it is in one.
    pub closed spec fn repo(&self) -> Option<LocationView> {
        repo_ref_view(self.repo)
    }

    /// A source file of the given kind at `path`, in no repo.
    pub fn new(kind: SourceFileKind, path: &'a str) -> (r: Self)
        ensures
            r.kind() == kind,
            r.path() == path@,
            r.repo() is None,
    {
        Self { kind, path, repo: None }
    }

    /// The source file at `path`, of the kind that its extension tells.
    pub fn of_path(path: &'a str) -> (r: Result<Self, Error>)
        ensures
            match r {
                Ok(file) => kind_of_path(path@) == Ok::<SourceFileKind, Option<Seq<char>>>(
                    file.kind(),
                ) && file.path() == path@ && file.repo() is None,
                Err(Error::SourceFileExt(ext)) => kind_of_path(path@) == Err::<
                    SourceFileKind,
                    Option<Seq<char>>,
                >(Some(ext@)),
                Err(Error::SourceFileNoExt(p)) => kind_of_path(path@) == Err::<
                    SourceFileKind,
                    Option<Seq<char>>,
                >(None) && p@ == path@,
                Err(_) => false,
            },
    {
        match SourceFileKind::of_path(path) {
            Ok(kind) => Ok(SourceFile::new(kind, path)),
            Err(e) => Err(e),
        }
    }

    /// Puts the file in a repo, or in none.
    pub fn set_repo(&mut self, repo: Option<&'a Repo>)
        ensures
            final(self).kind() == old(self).kind(),
            final(self).path() == old(self).path(),
            final(self).repo() == repo_ref_view(repo),
    {
        self.repo = repo
    }

    /// The unit that a line of the file marks. Line `n` gives an
    /// implementation unit when it holds a definiendum anywhere; the unit
    /// has the identifier of the first definiendum of the line, no content,
    /// and the number of the line.
    pub fn unit_of_src_line(&self, n: usize, line: &str) -> (r: Option<LogicalUnit>)
        ensures
            match r {
                Some(unit) => unit_of_line(self.repo(), self.path(), n as int, line@) == Some(
                    unit@,
                ),
                None => unit_of_line(self.repo(), self.path(), n as int, line@) is None,
            },
    {
        let id = match find_tag_id(line) {
            Some(id) => id,
            None => {
                return None;
            },
        };
        match LogicalUnit::new(
            copy_repo(self.repo),
            Some(self.path),
            Some(n as u64),
            Kind::Implementation,
            id.as_str(),
            "",
        ) {
            Ok(unit) => {
                proof {
                    reveal_strlit("");
                    assert(""@ =~= Seq::<char>::empty());
                }
                Some(unit)
            },
            Err(_) => None,
        }
    }

    /// The units that the lines of the text of a source file mark, one for
    /// each line that holds a definiendum, in the order of the lines. The
    /// lines are numbered from zero.
    pub fn units_of_src(&self, text: &str) -> (r: Vec<LogicalUnit>)
        ensures
            units_view(r@) == units_of_lines(
                self.repo(),
                self.path(),
                lines_from(text@, 0),
                lines_from(text@, 0).len() as int,
            ),
    {
        let lines = lines_of(text);
        let ghost lv = crate::text::strings_view(lines@);
        let mut r: Vec<LogicalUnit> = Vec::new();
        let mut n: usize = 0;
        assert(units_view(r@) =~= units_of_lines(self.repo(), self.path(), lv, 0));
        while n < lines.len()
            invariant
                lv == crate::text::strings_view(lines@),
                n <= lines.len(),
                units_view(r@) == units_of_lines(self.repo(), self.path(), lv, n as int),
            decreases lines.len() - n,
        {
            assert(lv[n as int] == lines@[n as int]@);
            match self.unit_of_src_line(n, lines[n].as_str()) {
                Some(unit) => {
                    let ghost before = units_view(r@);
                    r.push(unit);
                    assert(units_view(r@) =~= before.push(unit@));
                },
                None => {},
            }
            n += 1;
        }
        r
    }

    /// The units of a markdown file, given the HTML that the converter made
    /// of it: one requirement for each definition whose term is a
    /// definiendum.
    pub fn units_of_md(&self, html: &str) -> (r: Result<Vec<LogicalUnit>, Error>)
        ensures
            is_units_of(self.repo(), Some(self.path()), parsed_body_fragment(html@), r),
    {
        units_of_html(self.repo, Some(self.path), html)
    }

    /// The units of the file, given its content: for markdown, the HTML
    /// that the converter made of the file; for source code, its text.
    pub fn units(&self, content: &str) -> (r: Result<Vec<LogicalUnit>, Error>)
        ensures
            self.kind() == SourceFileKind::Markdown ==> is_units_of(
                self.repo(),
                Some(self.path()),
                parsed_body_fragment(content@),
                r,
            ),
            self.kind() == SourceFileKind::Rust ==> r is Ok && units_view(r->Ok_0@)
                == units_of_lines(
                self.repo(),
                self.path(),
                lines_from(content@, 0),
                lines_from(content@, 0).len() as int,
            ),
    {
        match self.kind {
            SourceFileKind::Markdown => self.units_of_md(content),
            SourceFileKind::Rust => Ok(self.units_of_src(content)),
        }
    }
}

/// The units found in one file, each once.
///
/// The units are kept in the order in which they were found. Two
/// artifacts are equal where they are of the same path and hold the same
/// units; the order does not count.
#[derive(Debug, Clone)]
pub struct Artifact {
    pub path: Option<String>,
    pub logical_units: Vec<LogicalUnit>,
}

impl PartialEq for Artifact {
    fn eq(&self, other: &Artifact) -> (r: bool) {
        self.same_as(other)
    }
}

impl Eq for Artifact {

}

impl PartialEqSpecImpl for Artifact {
    open spec fn obeys_eq_spec() -> bool {
        true
    }

    open spec fn eq_spec(&self, other: &Artifact) -> bool {
        opt_view(self.path) == opt_view(other.path) && self.unit_set() == other.unit_set()
    }
}

/// Whether each of `units` is one of `others`.
fn holds_all(others: &Vec<LogicalUnit>, units: &Vec<LogicalUnit>) -> (r: bool)
    ensures
        r == units_view(units@).to_set().subset_of(units_view(others@).to_set()),
{
    let ghost all = units_view(units@);
    let ghost held = units_view(others@);
    let mut i: usize = 0;
    while i < units.len()
        invariant
            all == units_view(units@),
            held == units_view(others@),
            i <= units.len(),
            forall|k: int| 0 <= k < i ==> held.contains(#[trigger] all[k]),
        decreases units.len() - i,
    {
        assert(all[i as int] == units@[i as int]@);
        if !holds(others, &units[i]) {
            assert(all.to_set().contains(all[i as int]));
            assert(!held.to_set().contains(all[i as int]));
            return false;
        }
        i += 1;
    }
    assert forall|x: LogicalUnitView| all.to_set().contains(x) implies held.to_set().contains(
        x,
    ) by {
        let k = choose|k: int| 0 <= k < all.len() && all[k] == x;
        assert(held.contains(all[k]));
    }
    true
}

/// Whether one of `units` is the same as `unit`.
fn holds(units: &Vec<LogicalUnit>, unit: &LogicalUnit) -> (r: bool)
    ensures
        r == units_view(units@).contains(unit@),
{
    let mut i: usize = 0;
    while i < units.len()
        invariant
            i <= units.len(),
            forall|k: int| 0 <= k < i ==> units_view(units@)[k] != unit@,
        decreases units.len() - i,
    {
        if units[i].same_as(unit) {
            assert(units_view(units@)[i as int] == unit@);
            return true;
        }
        i += 1;
    }
    false
}

impl Artifact {
    /// Whether the artifact holds each of its units once.
    pub open spec fn wf(&self) -> bool {
        units_view(self.logical_units@).no_duplicates()
    }

    /// The units of the artifact, as a set.
    pub open spec fn unit_set(&self) -> Set<LogicalUnitView> {
        units_view(self.logical_units@).to_set()
    }

    /// Whether the two artifacts are of the same path and hold the same
    /// units, in whatever order.
    pub fn same_as(&self, other: &Artifact) -> (r: bool)
        ensures
            r == (opt_view(self.path) == opt_view(other.path) && self.unit_set()
                == other.unit_set()),
    {
        let same_path = match (&self.path, &other.path) {
            (Some(a), Some(b)) => same_text(a.as_str(), b.as_str()),
            (None, None) => true,
            _ => false,
        };
        let r = same_path && holds_all(&other.logical_units, &self.logical_units) && holds_all(
            &self.logical_units,
            &other.logical_units,
        );
        proof {
            if r {
                assert(self.unit_set() =~= other.unit_set());
            }
        }
        r
    }

    /// The artifact at `path` with the given units. Units that are the
    /// same in all they hold are taken once.
    pub fn new(path: Option<String>, logical_units: Vec<LogicalUnit>) -> (r: Artifact)
        ensures
            r.path == path,
            units_view(r.logical_units@) == without_repeats(units_view(logical_units@)),
            r.wf(),
            r.unit_set() == units_view(logical_units@).to_set(),
    {
        proof {
            let given = units_view(logical_units@);
            lemma_without_repeats(given);
            assert forall|x: LogicalUnitView|
                without_repeats(given).to_set().contains(x) <==> given.to_set().contains(
                    x,
                ) by {
                if without_repeats(given).contains(x) {
                    let k = choose|k: int|
                        0 <= k < without_repeats(given).len() && without_repeats(given)[k] == x;
                    assert(given.contains(without_repeats(given)[k]));
                }
                if given.contains(x) {
                    let i = choose|i: int| 0 <= i < given.len() && given[i] == x;
                    assert(without_repeats(given).contains(given[i]));
                }
            }
            assert(without_repeats(given).to_set() =~= given.to_set());
        }
        let ghost all = units_view(logical_units@);
        let mut units: Vec<LogicalUnit> = Vec::new();
        let mut i: usize = 0;
        proof {
            assert(all.take(0) =~= Seq::<LogicalUnitView>::empty());
            assert(units_view(units@) =~= without_repeats(all.take(0)));
        }
        while i < logical_units.len()
            invariant
                all == units_view(logical_units@),
                i <= logical_units.len(),
                units_view(units@) == without_repeats(all.take(i as int)),
            decreases logical_units.len() - i,
        {
            proof {
                assert(all.take(i + 1).drop_last() =~= all.take(i as int));
                assert(all.take(i + 1).last() == logical_units@[i as int]@);
            }
            if !holds(&units, &logical_units[i]) {
                let ghost before = units_view(units@);
                let unit = logical_units[i].copy();
                units.push(unit);
                assert(units_view(units@) =~= before.push(unit@));
            }
            i += 1;
        }
        proof {
            assert(all.take(logical_units@.len() as int) =~= all);
        }
        Artifact { path, logical_units: units }
    }

    /// The artifact of the file at `path`, given its content: for markdown,
    /// the HTML that the converter made of the file; for source code, its
    /// text.
    ///
    /// Fails when the extension of the path tells no kind of source file,
    /// or when a definition list of a markdown file is malformed.
    pub fn from_file(repo: Option<&Repo>, path: &str, content: &str) -> (r: Result<
        Artifact,
        Error,
    >)
        ensures
            match kind_of_path(path@) {
                Err(Some(ext)) => match r {
                    Err(Error::SourceFileExt(e)) => e@ == ext,
                    _ => false,
                },
                Err(None) => match r {
                    Err(Error::SourceFileNoExt(p)) => p@ == path@,
                    _ => false,
                },
                Ok(SourceFileKind::Markdown) => match r {
                    Ok(artifact) => {
                        &&& definitions_of(parsed_body_fragment(content@)) is Ok
                        &&& opt_view(artifact.path) == Some(path@)
                        &&& artifact.wf()
                        &&& units_view(artifact.logical_units@) == without_repeats(
                            units_of_document(
                                repo_ref_view(repo),
                                Some(path@),
                                parsed_body_fragment(content@),
                            ),
                        )
                    },
                    Err(e) => is_malformed_error(parsed_body_fragment(content@), e),
                },
                Ok(SourceFileKind::Rust) => match r {
                    Ok(artifact) => {
                        &&& opt_view(artifact.path) == Some(path@)
                        &&& artifact.wf()
                        &&& units_view(artifact.logical_units@) == without_repeats(
                            units_of_lines(
                                repo_ref_view(repo),
                                path@,
                                lines_from(content@, 0),
                                lines_from(content@, 0).len() as int,
                            ),
                        )
                    },
                    Err(_) => false,
                },
            },
    {
        let mut source_file = match SourceFile::of_path(path) {
            Ok(file) => file,
            Err(e) => {
                return Err(e);
            },
        };
        source_file.set_repo(repo);
        match source_file.units(content) {
            Ok(units) => Ok(Artifact::new(Some(path.to_owned()), units)),
            Err(e) => Err(e),
        }
    }

    /// The artifact, without a source, of a document given as the HTML
    /// that the converter made of it.
    pub fn from_string(html: &str) -> (r: Result<Artifact, Error>)
        ensures
            match r {
                Ok(artifact) => {
                    &&& definitions_of(parsed_body_fragment(html@)) is Ok
                    &&& artifact.path is None
                    &&& artifact.wf()
                    &&& units_view(artifact.logical_units@) == without_repeats(
                        units_of_document(None, None, parsed_body_fragment(html@)),
                    )
                },
                Err(e) => is_malformed_error(parsed_body_fragment(html@), e),
            },
    {
        match units_of_html(None, None, html) {
            Ok(units) => Ok(Artifact::new(None, units)),
            Err(e) => Err(e),
        }
    }

    /// The text of the artifact for display.
    pub fn to_string(&self) -> (r: String)
        ensures
            r@ == "Artifact from source '"@ + (match self.path {
                Some(path) => path@,
                None => "None"@,
            }) + "' content:"@ + units_text(
                units_view(self.logical_units@),
                self.logical_units@.len() as int,
            ),
    {
        let mut r = "Artifact from source '".to_owned();
        match &self.path {
            Some(path) => r.push_str(path.as_str()),
            None => r.push_str("None"),
        }
        r.push_str("' content:");
        let ghost head = r@;
        let ghost all = units_view(self.logical_units@);
        let mut i: usize = 0;
        assert(head + units_text(all, 0) =~= head);
        while i < self.logical_units.len()
            invariant
                all == units_view(self.logical_units@),
                i <= self.logical_units.len(),
                r@ == head + units_text(all, i as int),
            decreases self.logical_units.len() - i,
        {
            r.push_str(" ");
            r.push_str(self.logical_units[i].to_string().as_str());
            proof {
                assert(all[i as int] == self.logical_units@[i as int]@);
                assert(r@ =~= head + (units_text(all, i as int) + " "@ + unit_display_text(
                    all[i as int],
                )));
            }
            i += 1;
        }
        r
    }
}

} // verus!
