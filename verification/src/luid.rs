//! Logical unit identifiers as plain records: a list of parts, each a tag
//! with a version.

use vstd::prelude::*;
use crate::grammar::{id_text, is_id, is_id_text, parsed_id, PartView};
use crate::logical_unit::id_chars;
use crate::parser::{logical_unit_id, IdParseError};
use crate::text::string_of;

verus! {

/// A single part of a logical unit's identifier, e.g. `TRC-REF.1`.
#[derive(Debug, Clone, PartialEq, Eq, Hash)]
pub struct LogicalUnitIdPart {
    /// The tag component of the part, e.g. `TRC-REF`.
    pub tag: String,
    /// The version number of the part.
    pub version: u32,
}

impl View for LogicalUnitIdPart {
    type V = PartView;

    open spec fn view(&self) -> PartView {
        (self.tag@, self.version)
    }
}

/// A fully qualified logical unit identifier, e.g. `TRC-TAG.1::SYNTAX.1`.
#[derive(Debug, Clone, PartialEq, Eq, Hash)]
pub struct LogicalUnitId(pub Vec<LogicalUnitIdPart>);

impl View for LogicalUnitId {
    type V = Seq<PartView>;

    open spec fn view(&self) -> Seq<PartView> {
        Seq::new(self.0@.len(), |i: int| self.0@[i]@)
    }
}

impl LogicalUnitIdPart {
    /// The text of the part: `tag.version`.
    pub fn to_string(&self) -> (r: String)
        ensures
            r@ == crate::grammar::part_text(self@),
    {
        let mut parts: Vec<(String, u32)> = Vec::new();
        parts.push((self.tag.clone(), self.version));
        proof {
            let view = crate::parser::parts_view(parts@);
            assert(view.len() == 1);
            assert(view[0] == self@);
        }
        string_of(&id_chars(&parts))
    }
}

impl LogicalUnitId {
    /// The identifier with the given parts. Nothing is checked.
    pub fn from_parts(parts: Vec<LogicalUnitIdPart>) -> (r: LogicalUnitId)
        ensures
            r.0 == parts,
    {
        LogicalUnitId(parts)
    }

    /// Parses the canonical text of an identifier.
    ///
    /// Succeeds exactly when all of `s` matches the grammar of identifiers,
    /// and then returns the identifier whose canonical text is `s`.
    pub fn from_str(s: &str) -> (r: Result<LogicalUnitId, IdParseError>)
        ensures
            r is Ok <==> is_id_text(s@),
            match r {
                Ok(id) => parsed_id(s@) == Some(id@) && is_id(id@) && id_text(id@) == s@,
                Err(e) => e.input@ == s@,
            },
    {
        let mut pairs = match logical_unit_id(s) {
            Ok(pairs) => pairs,
            Err(e) => {
                return Err(e);
            },
        };
        let ghost all = crate::parser::parts_view(pairs@);
        let mut parts: Vec<LogicalUnitIdPart> = Vec::new();
        let mut i: usize = 0;
        while i < pairs.len()
            invariant
                i <= pairs.len(),
                all == crate::parser::parts_view(pairs@),
                parts@.len() == i,
                forall|k: int| 0 <= k < i ==> (#[trigger] parts@[k])@ == all[k],
            decreases pairs.len() - i,
        {
            parts.push(LogicalUnitIdPart { tag: pairs[i].0.clone(), version: pairs[i].1 });
            i += 1;
        }
        let id = LogicalUnitId(parts);
        assert(id@ =~= all);
        Ok(id)
    }

    /// The canonical text of the identifier: its parts joined by `::`.
    pub fn to_string(&self) -> (r: String)
        ensures
            r@ == id_text(self@),
    {
        let mut pairs: Vec<(String, u32)> = Vec::new();
        let mut i: usize = 0;
        while i < self.0.len()
            invariant
                i <= self.0.len(),
                pairs@.len() == i,
                forall|k: int|
                    0 <= k < i ==> crate::parser::parts_view(pairs@)[k] == (#[trigger] self.0@[k])@,
            decreases self.0.len() - i,
        {
            pairs.push((self.0[i].tag.clone(), self.0[i].version));
            i += 1;
        }
        assert(crate::parser::parts_view(pairs@) =~= self@);
        string_of(&id_chars(&pairs))
    }
}

} // verus!
