//! Logical units: uniquely identified, kinded pieces of traceable content.

use vstd::prelude::*;
use crate::decimal::{decimal, push_decimal};
use crate::grammar::{
    id_text, is_id, is_id_text, is_part, parent_of, parsed_id, part_text, PartView,
};
use crate::parser::{is_tag_text, logical_unit_id, parts_view, IdParseError};
use crate::repo::{opt_view, same_opt_text, LocationView, Repo};
use crate::text::{joined, replace_all, replaced, same_text, string_of};

verus! {

/// The identifier of a logical unit, such as `TRC-TAG.1::SYNTAX.1`: a
/// sequence of tags, each with its version.
#[derive(Debug, PartialEq, Eq, PartialOrd, Ord, Hash)]
pub struct Id {
    parts: Vec<(String, u32)>,
}

impl View for Id {
    type V = Seq<PartView>;

    closed spec fn view(&self) -> Seq<PartView> {
        parts_view(self.parts@)
    }
}

impl Clone for Id {
    fn clone(&self) -> (r: Id)
        ensures
            r@ == self@,
    {
        self.copy()
    }
}

/// Appends the text of the part `(tag, version)` to `out`.
fn push_part(out: &mut Vec<char>, tag: &str, version: u32)
    ensures
        final(out)@ == old(out)@ + part_text((tag@, version)),
{
    let mut tag_chars = crate::text::chars_of(tag);
    out.append(&mut tag_chars);
    out.push('.');
    push_decimal(out, version as u64);
    assert(final(out)@ =~= old(out)@ + part_text((tag@, version)));
}

/// The canonical text of the identifier `parts`, as characters.
pub fn id_chars(parts: &Vec<(String, u32)>) -> (out: Vec<char>)
    ensures
        out@ == id_text(parts_view(parts@)),
{
    let mut out: Vec<char> = Vec::new();
    let n = parts.len();
    let ghost all = parts_view(parts@);
    let mut k: usize = 0;
    proof {
        assert(all.skip(0) =~= all);
        assert(out@ + Seq::<char>::empty() + id_text(all) =~= id_text(all));
    }
    while k < n
        invariant
            n == parts.len(),
            all == parts_view(parts@),
            k <= n,
            k < n ==> out@ + (if k == 0 {
                Seq::<char>::empty()
            } else {
                seq![':', ':']
            }) + id_text(all.skip(k as int)) == id_text(all),
            k == n ==> out@ == id_text(all),
        decreases n - k,
    {
        let ghost before = out@;
        if k > 0 {
            out.push(':');
            out.push(':');
        }
        push_part(&mut out, parts[k].0.as_str(), parts[k].1);
        proof {
            let rest = all.skip(k as int);
            assert(rest[0] == (parts@[k as int].0@, parts@[k as int].1));
            assert(rest.drop_first() =~= all.skip(k + 1));
            if k + 1 == n {
                assert(rest.len() == 1);
                assert(id_text(rest) == part_text(rest[0]));
                assert(out@ =~= before + (if k == 0 {
                    Seq::<char>::empty()
                } else {
                    seq![':', ':']
                }) + id_text(rest));
            } else {
                assert(id_text(rest) == part_text(rest[0]) + seq![':', ':'] + id_text(
                    all.skip(k + 1),
                ));
                assert(out@ + seq![':', ':'] + id_text(all.skip(k + 1)) =~= before + (if k == 0 {
                    Seq::<char>::empty()
                } else {
                    seq![':', ':']
                }) + id_text(rest));
            }
        }
        k += 1;
    }
    proof {
        if n == 0 {
            assert(all.skip(0) =~= all);
        }
    }
    out
}

impl Id {
    /// Whether this is an identifier of the grammar: at least one part, each
    /// with a well-formed tag and a positive version. Every identifier is.
    #[verifier::type_invariant]
    pub open spec fn wf(&self) -> bool {
        is_id(self@)
    }

    /// The canonical text: the parts as `tag.version`, joined by `::`.
    pub open spec fn text(&self) -> Seq<char> {
        id_text(self@)
    }

    /// Parses the canonical text of an identifier.
    ///
    /// Succeeds exactly when all of `s` matches the grammar, and then
    /// returns the identifier whose canonical text is `s`.
    pub fn new(s: &str) -> (r: Result<Id, IdParseError>)
        ensures
            r is Ok <==> is_id_text(s@),
            match r {
                Ok(id) => parsed_id(s@) == Some(id@) && id.wf() && id.text() == s@,
                Err(e) => e.input@ == s@,
            },
    {
        match logical_unit_id(s) {
            Ok(parts) => Ok(Id { parts }),
            Err(e) => Err(e),
        }
    }

    /// Whether `parts` are the parts of an identifier: at least one, each
    /// with a well-formed tag and a positive version.
    pub fn are_parts(parts: &Vec<(String, u32)>) -> (r: bool)
        ensures
            r == is_id(parts_view(parts@)),
    {
        if parts.len() == 0 {
            return false;
        }
        let mut i: usize = 0;
        while i < parts.len()
            invariant
                i <= parts.len(),
                forall|k: int| 0 <= k < i ==> is_part(#[trigger] parts_view(parts@)[k]),
            decreases parts.len() - i,
        {
            if !is_tag_text(parts[i].0.as_str()) || parts[i].1 < 1 {
                assert(!is_part(parts_view(parts@)[i as int]));
                return false;
            }
            i += 1;
        }
        true
    }

    /// The identifier with the given parts, which must be the parts of an
    /// identifier; [`Id::are_parts`] tells.
    pub fn from_parts(parts: Vec<(String, u32)>) -> (r: Id)
        requires
            is_id(parts_view(parts@)),
        ensures
            r@ == parts_view(parts@),
            r.wf(),
    {
        Id { parts }
    }

    /// The parts: each tag with its version.
    pub fn parts(&self) -> (r: Vec<(String, u32)>)
        ensures
            parts_view(r@) == self@,
    {
        let mut r: Vec<(String, u32)> = Vec::new();
        let mut i: usize = 0;
        while i < self.parts.len()
            invariant
                i <= self.parts.len(),
                r@.len() == i,
                parts_view(r@) == parts_view(self.parts@).take(i as int),
            decreases self.parts.len() - i,
        {
            let ghost before = r@;
            r.push((self.parts[i].0.clone(), self.parts[i].1));
            assert forall|k: int| 0 <= k < i + 1 implies parts_view(r@)[k] == parts_view(
                self.parts@,
            )[k] by {
                if k < i {
                    assert(parts_view(before)[k] == parts_view(self.parts@).take(i as int)[k]);
                }
            }
            assert(parts_view(r@) =~= parts_view(self.parts@).take(i + 1));
            i += 1;
        }
        assert(parts_view(self.parts@).take(self.parts@.len() as int) =~= self@);
        r
    }

    /// A copy of the identifier.
    pub fn copy(&self) -> (r: Id)
        ensures
            r@ == self@,
    {
        proof {
            use_type_invariant(self);
        }
        Id { parts: self.parts() }
    }

    /// The number of parts: at least one.
    pub fn len(&self) -> (n: usize)
        ensures
            n == self@.len(),
            n >= 1,
            self.wf(),
    {
        proof {
            use_type_invariant(self);
        }
        self.parts.len()
    }

    /// The canonical text of the identifier.
    pub fn to_string(&self) -> (r: String)
        ensures
            r@ == self.text(),
    {
        string_of(&id_chars(&self.parts))
    }

    /// The identifier of the parent: the same parts but the last. An
    /// identifier of one part is a root and has no parent.
    pub fn parent(&self) -> (r: Option<Id>)
        ensures
            match r {
                Some(p) => parent_of(self@) == Some(p@),
                None => parent_of(self@) is None,
            },
    {
        if self.parts.len() < 2 {
            return None;
        }
        let mut r: Vec<(String, u32)> = Vec::new();
        let mut i: usize = 0;
        let n = self.parts.len() - 1;
        while i < n
            invariant
                n + 1 == self.parts.len(),
                i <= n,
                r@.len() == i,
                parts_view(r@) == parts_view(self.parts@).take(i as int),
            decreases n - i,
        {
            let ghost before = r@;
            r.push((self.parts[i].0.clone(), self.parts[i].1));
            assert forall|k: int| 0 <= k < i + 1 implies parts_view(r@)[k] == parts_view(
                self.parts@,
            )[k] by {
                if k < i {
                    assert(parts_view(before)[k] == parts_view(self.parts@).take(i as int)[k]);
                }
            }
            assert(parts_view(r@) =~= parts_view(self.parts@).take(i + 1));
            i += 1;
        }
        proof {
            use_type_invariant(self);
            let front = self@.drop_last();
            assert(parts_view(self.parts@).take(n as int) =~= front);
            assert forall|k: int| 0 <= k < front.len() implies is_part(#[trigger] front[k]) by {
                assert(front[k] == self@[k]);
            }
        }
        Some(Id { parts: r })
    }

    /// Whether the two identifiers have the same parts.
    pub fn same_as(&self, other: &Id) -> (b: bool)
        ensures
            b == (self@ == other@),
    {
        if self.parts.len() != other.parts.len() {
            assert(self@.len() != other@.len());
            return false;
        }
        let mut i: usize = 0;
        while i < self.parts.len()
            invariant
                self.parts.len() == other.parts.len(),
                i <= self.parts.len(),
                forall|k: int| 0 <= k < i ==> self@[k] == other@[k],
            decreases self.parts.len() - i,
        {
            if self.parts[i].0 != other.parts[i].0 || self.parts[i].1 != other.parts[i].1 {
                assert(self@[i as int] != other@[i as int]);
                return false;
            }
            i += 1;
        }
        assert(self@ =~= other@);
        true
    }

    /// Whether `self` is the parent of `child`.
    pub fn is_parent_of(&self, child: &Id) -> (b: bool)
        ensures
            b == (parent_of(child@) == Some(self@)),
    {
        match child.parent() {
            Some(p) => self.same_as(&p),
            None => false,
        }
    }
}

/// The kind of a logical unit.
#[derive(Debug, Clone, Copy, PartialEq, Eq, PartialOrd, Ord, Hash, Structural)]
pub enum Kind {
    Requirement,
    Model,
    Implementation,
    Verification,
}

impl Kind {
    /// The name of the kind.
    pub fn to_string(&self) -> (r: String)
        ensures
            r@ == match self {
                Kind::Requirement => "Requirement"@,
                Kind::Model => "Model"@,
                Kind::Implementation => "Implementation"@,
                Kind::Verification => "Verification"@,
            },
    {
        match self {
            Kind::Requirement => "Requirement".to_owned(),
            Kind::Model => "Model".to_owned(),
            Kind::Implementation => "Implementation".to_owned(),
            Kind::Verification => "Verification".to_owned(),
        }
    }
}

/// A uniquely identified, kinded piece of traceable content, with the place
/// it was found at.
#[derive(Debug, Clone, PartialEq, Eq, PartialOrd, Ord, Hash)]
pub struct LogicalUnit {
    pub id: Id,
    pub kind: Kind,
    pub repo: Option<Repo>,
    pub file: Option<String>,
    pub line: Option<u64>,
    pub content: String,
    /// Logical units that are referred to in the content of this one.
    pub references: Vec<Id>,
}

/// The view of an optional repo.
pub open spec fn opt_repo_view(repo: Option<Repo>) -> Option<LocationView> {
    match repo {
        Some(r) => Some(r@),
        None => None,
    }
}

/// The identifiers of `ids`, each by its view.
pub open spec fn ids_view(ids: Seq<Id>) -> Seq<Seq<PartView>> {
    Seq::new(ids.len(), |i: int| ids[i]@)
}

/// A logical unit, as specifications see it.
pub struct LogicalUnitView {
    pub id: Seq<PartView>,
    pub kind: Kind,
    pub repo: Option<LocationView>,
    pub file: Option<Seq<char>>,
    pub line: Option<u64>,
    pub content: Seq<char>,
    pub references: Seq<Seq<PartView>>,
}

impl View for LogicalUnit {
    type V = LogicalUnitView;

    open spec fn view(&self) -> LogicalUnitView {
        LogicalUnitView {
            id: self.id@,
            kind: self.kind,
            repo: opt_repo_view(self.repo),
            file: opt_view(self.file),
            line: self.line,
            content: self.content@,
            references: ids_view(self.references@),
        }
    }
}

/// The units of `units`, each by its view.
pub open spec fn units_view(units: Seq<LogicalUnit>) -> Seq<LogicalUnitView> {
    Seq::new(units.len(), |i: int| units[i]@)
}

/// A copy of a list of identifiers.
fn copy_ids(ids: &Vec<Id>) -> (r: Vec<Id>)
    ensures
        ids_view(r@) == ids_view(ids@),
{
    let mut r: Vec<Id> = Vec::new();
    let mut i: usize = 0;
    while i < ids.len()
        invariant
            i <= ids.len(),
            r@.len() == i,
            forall|k: int| 0 <= k < i ==> (#[trigger] r@[k])@ == ids@[k]@,
        decreases ids.len() - i,
    {
        r.push(ids[i].copy());
        i += 1;
    }
    assert(ids_view(r@) =~= ids_view(ids@));
    r
}

/// Whether the two lists hold the same identifiers in the same order.
fn same_ids(a: &Vec<Id>, b: &Vec<Id>) -> (r: bool)
    ensures
        r == (ids_view(a@) == ids_view(b@)),
{
    if a.len() != b.len() {
        assert(ids_view(a@).len() != ids_view(b@).len());
        return false;
    }
    let mut i: usize = 0;
    while i < a.len()
        invariant
            a.len() == b.len(),
            i <= a.len(),
            forall|k: int| 0 <= k < i ==> a@[k]@ == b@[k]@,
        decreases a.len() - i,
    {
        if !a[i].same_as(&b[i]) {
            assert(ids_view(a@)[i as int] != ids_view(b@)[i as int]);
            return false;
        }
        i += 1;
    }
    assert(ids_view(a@) =~= ids_view(b@));
    true
}

/// The units that a content refers to. References are not resolved from
/// content: the result is always empty.
pub fn references_of_content(_s: &str) -> (r: Vec<Id>)
    ensures
        r@.len() == 0,
{
    Vec::new()
}

/// A content on one line: each line break replaced by a space.
pub open spec fn flattened(content: Seq<char>) -> Seq<char> {
    replaced(content, seq!['\n'], seq![' '])
}

/// A content on one line: each line break replaced by a space.
pub fn flatten(content: &str) -> (r: String)
    ensures
        r@ == flattened(content@),
{
    proof {
        reveal_strlit("\n");
        reveal_strlit(" ");
        assert("\n"@ =~= seq!['\n']);
        assert(" "@ =~= seq![' ']);
    }
    replace_all(content, "\n", " ")
}

/// The text of a unit for display:
/// `LOGICAL-UNIT{repo: .., file: .., id: .., kind: .., content: ".."}`,
/// with `None` for a repo or a file that is not known.
pub open spec fn unit_display_text(unit: LogicalUnitView) -> Seq<char> {
    "LOGICAL-UNIT{repo: "@ + (match unit.repo {
        Some(repo) => repo.path,
        None => "None"@,
    }) + ", file: "@ + (match unit.file {
        Some(file) => file,
        None => "None"@,
    }) + ", id: "@ + id_text(unit.id) + ", kind: "@ + (match unit.kind {
        Kind::Requirement => "Requirement"@,
        Kind::Model => "Model"@,
        Kind::Implementation => "Implementation"@,
        Kind::Verification => "Verification"@,
    }) + ", content: \""@ + unit.content + "\"}"@
}

/// The name of a kind.
pub open spec fn kind_text(kind: Kind) -> Seq<char> {
    match kind {
        Kind::Requirement => "Requirement"@,
        Kind::Model => "Model"@,
        Kind::Implementation => "Implementation"@,
        Kind::Verification => "Verification"@,
    }
}

/// The canonical texts of identifiers.
pub open spec fn id_texts(ids: Seq<Seq<PartView>>) -> Seq<Seq<char>> {
    Seq::new(ids.len(), |i: int| id_text(ids[i]))
}

/// All that is known of a unit, a field on each line and the content
/// below: the identifier, the kind, the path of the repo, the file, the
/// line and the references, each empty where it is not known.
pub open spec fn unit_info_text(unit: LogicalUnitView) -> Seq<char> {
    "tag:\t"@ + id_text(unit.id) + "\nkind:\t"@ + kind_text(unit.kind) + "\nrepo:\t"@ + (match unit.repo {
        Some(repo) => repo.path,
        None => Seq::empty(),
    }) + "\nfile:\t"@ + (match unit.file {
        Some(file) => file,
        None => Seq::empty(),
    }) + "\nline:\t"@ + (match unit.line {
        Some(line) => decimal(line as nat),
        None => Seq::empty(),
    }) + "\nrefs:\t"@ + joined(id_texts(unit.references), " "@) + "\n\n"@ + unit.content
        + "\n"@
}

/// A unit on one line of a table: the identifier, the path of the repo and
/// the content on one line, with a tab between each two.
pub open spec fn unit_synopsis_line(unit: LogicalUnitView) -> Seq<char> {
    id_text(unit.id) + "\t"@ + (match unit.repo {
        Some(repo) => repo.path,
        None => Seq::empty(),
    }) + "\t"@ + flattened(unit.content)
}

impl LogicalUnit {
    /// All that is known of the unit, for display.
    pub fn info_text(&self) -> (r: String)
        ensures
            r@ == unit_info_text(self@),
    {
        let mut r = "tag:\t".to_owned();
        r.push_str(self.id.to_string().as_str());
        r.push_str("\nkind:\t");
        r.push_str(self.kind.to_string().as_str());
        r.push_str("\nrepo:\t");
        match &self.repo {
            Some(repo) => r.push_str(repo.path_as_string().as_str()),
            None => {
                assert(r@ + Seq::<char>::empty() =~= r@);
            },
        }
        r.push_str("\nfile:\t");
        match &self.file {
            Some(file) => r.push_str(file.as_str()),
            None => {
                assert(r@ + Seq::<char>::empty() =~= r@);
            },
        }
        r.push_str("\nline:\t");
        match self.line {
            Some(line) => {
                let mut digits: Vec<char> = Vec::new();
                push_decimal(&mut digits, line);
                assert(digits@ =~= decimal(line as nat));
                r.push_str(string_of(&digits).as_str());
            },
            None => {
                assert(r@ + Seq::<char>::empty() =~= r@);
            },
        }
        r.push_str("\nrefs:\t");
        let mut refs: Vec<String> = Vec::new();
        let mut i: usize = 0;
        while i < self.references.len()
            invariant
                i <= self.references.len(),
                refs@.len() == i,
                forall|k: int|
                    0 <= k < i ==> (#[trigger] refs@[k])@ == id_text(self.references@[k]@),
            decreases self.references.len() - i,
        {
            refs.push(self.references[i].to_string());
            i += 1;
        }
        assert(crate::text::strings_view(refs@) =~= id_texts(ids_view(self.references@)));
        r.push_str(crate::text::join(&refs, " ").as_str());
        r.push_str("\n\n");
        r.push_str(self.content.as_str());
        r.push_str("\n");
        r
    }

    /// The unit on one line of a table.
    pub fn synopsis_line(&self) -> (r: String)
        ensures
            r@ == unit_synopsis_line(self@),
    {
        let (tag, repo, content) = self.synopsis();
        let mut r = tag;
        r.push_str("\t");
        r.push_str(repo.as_str());
        r.push_str("\t");
        r.push_str(content.as_str());
        r
    }

    /// A unit of the given kind, found in `repo`, in `file`, at `line`, as
    /// far as these are known. The identifier is parsed from `id`; nothing
    /// else is checked.
    ///
    /// Fails exactly when `id` is not the canonical text of an identifier.
    pub fn new(
        repo: Option<Repo>,
        file: Option<&str>,
        line: Option<u64>,
        kind: Kind,
        id: &str,
        content: &str,
    ) -> (r: Result<LogicalUnit, IdParseError>)
        ensures
            r is Ok <==> is_id_text(id@),
            match r {
                Ok(unit) => {
                    &&& unit.id.wf()
                    &&& unit.id.text() == id@
                    &&& unit.repo == repo
                    &&& unit@ == (LogicalUnitView {
                        id: parsed_id(id@).unwrap(),
                        kind,
                        repo: opt_repo_view(repo),
                        file: match file {
                            Some(f) => Some(f@),
                            None => None,
                        },
                        line,
                        content: content@,
                        references: Seq::empty(),
                    })
                },
                Err(e) => e.input@ == id@,
            },
    {
        let id = match Id::new(id) {
            Ok(id) => id,
            Err(e) => {
                return Err(e);
            },
        };
        let file = match file {
            Some(f) => Some(f.to_owned()),
            None => None,
        };
        let references = references_of_content(content);
        assert(ids_view(references@) =~= Seq::<Seq<PartView>>::empty());
        Ok(LogicalUnit { id, kind, repo, file, line, content: content.to_owned(), references })
    }

    /// A copy of the unit.
    pub fn copy(&self) -> (r: LogicalUnit)
        ensures
            r@ == self@,
    {
        LogicalUnit {
            id: self.id.copy(),
            kind: self.kind,
            repo: match &self.repo {
                Some(repo) => Some(repo.copy()),
                None => None,
            },
            file: self.file.clone(),
            line: self.line,
            content: self.content.clone(),
            references: copy_ids(&self.references),
        }
    }

    /// Whether the two units are the same in all they hold.
    pub fn same_as(&self, other: &LogicalUnit) -> (r: bool)
        ensures
            r == (self@ == other@),
    {
        let same_repo = match (&self.repo, &other.repo) {
            (Some(a), Some(b)) => a.same_as(b),
            (None, None) => true,
            _ => false,
        };
        let same_line = match (self.line, other.line) {
            (Some(a), Some(b)) => a == b,
            (None, None) => true,
            _ => false,
        };
        self.id.same_as(&other.id) && self.kind == other.kind && same_repo && same_opt_text(
            &self.file,
            &other.file,
        ) && same_line && same_text(self.content.as_str(), other.content.as_str()) && same_ids(
            &self.references,
            &other.references,
        )
    }

    /// The identifier of the parent unit, if the identifier has one.
    pub fn parent_id(&self) -> (r: Option<Id>)
        ensures
            match r {
                Some(p) => parent_of(self.id@) == Some(p@),
                None => parent_of(self.id@) is None,
            },
    {
        self.id.parent()
    }

    /// A triple for tabular display: the text of the identifier, the path of
    /// the repo or the empty string, and the content on one line.
    pub fn synopsis(&self) -> (r: (String, String, String))
        ensures
            r.0@ == self.id.text(),
            r.1@ == match self.repo {
                Some(repo) => repo@.path,
                None => Seq::<char>::empty(),
            },
            r.2@ == flattened(self.content@),
    {
        let tag = self.id.to_string();
        let content = flatten(self.content.as_str());
        let repo = match &self.repo {
            Some(r) => r.path_as_string(),
            None => String::new(),
        };
        (tag, repo, content)
    }

    /// The text of the unit for display. See [`unit_display_text`].
    pub open spec fn display_text(&self) -> Seq<char> {
        unit_display_text(self@)
    }

    /// The text of the unit for display.
    pub fn to_string(&self) -> (r: String)
        ensures
            r@ == self.display_text(),
    {
        let mut r = "LOGICAL-UNIT{repo: ".to_owned();
        match &self.repo {
            Some(repo) => r.push_str(repo.to_string().as_str()),
            None => r.push_str("None"),
        }
        r.push_str(", file: ");
        match &self.file {
            Some(file) => r.push_str(file.as_str()),
            None => r.push_str("None"),
        }
        r.push_str(", id: ");
        r.push_str(self.id.to_string().as_str());
        r.push_str(", kind: ");
        r.push_str(self.kind.to_string().as_str());
        r.push_str(", content: \"");
        r.push_str(self.content.as_str());
        r.push_str("\"}");
        r
    }
}

} // verus!
