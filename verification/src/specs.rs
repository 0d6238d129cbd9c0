//! Project specifications: the logical units of a project, each under its
//! identifier.

use vstd::prelude::*;
use crate::grammar::id_text;
use crate::hierarchy::{first_of, lemma_first_of, IdView};
use crate::graph::{first_unit_with, unit_ids};
use crate::logical_unit::{
    unit_display_text, units_view, Id, LogicalUnit, LogicalUnitView,
};

verus! {

/// What can go wrong when specifications are read.
#[derive(Debug, Clone, PartialEq, Eq)]
pub enum SpecificationParseError {
    /// Two units have the same identifier. Holds the identifier and the
    /// two units, each as it is displayed.
    DuplicateLogicalUnit(String, String, String),
    /// The converter could not be run.
    PandocError(String),
    /// The output of the converter could not be read.
    PandocASTParseError(String),
}

impl SpecificationParseError {
    /// A message that names the cause, and for a duplicate both units.
    pub fn to_string(&self) -> (r: String)
        ensures
            r@ == match self {
                SpecificationParseError::DuplicateLogicalUnit(id, first, second) =>
                    "duplicate logical unit found with ID: "@ + id@ + ": "@ + first@ + " and "@
                        + second@,
                SpecificationParseError::PandocError(cause) => "Pandoc execution failed: "@
                    + cause@,
                SpecificationParseError::PandocASTParseError(cause) =>
                    "failed to parse Pandoc AST: "@ + cause@,
            },
    {
        match self {
            SpecificationParseError::DuplicateLogicalUnit(id, first, second) => {
                let mut r = "duplicate logical unit found with ID: ".to_owned();
                r.push_str(id.as_str());
                r.push_str(": ");
                r.push_str(first.as_str());
                r.push_str(" and ");
                r.push_str(second.as_str());
                r
            },
            SpecificationParseError::PandocError(cause) => {
                let mut r = "Pandoc execution failed: ".to_owned();
                r.push_str(cause.as_str());
                r
            },
            SpecificationParseError::PandocASTParseError(cause) => {
                let mut r = "failed to parse Pandoc AST: ".to_owned();
                r.push_str(cause.as_str());
                r
            },
        }
    }
}

/// Whether no two of the identifiers are the same.
pub open spec fn distinct_ids(ids: Seq<IdView>) -> bool {
    forall|i: int, j: int| 0 <= i < j < ids.len() ==> #[trigger] ids[i] != #[trigger] ids[j]
}

/// The first unit among the first `n` of `src` whose identifier a unit of
/// `dest` has, with that unit of `dest`: the index in `dest` first.
pub open spec fn first_conflict(dest: Seq<IdView>, src: Seq<IdView>, n: int) -> Option<(int, int)>
    decreases n,
{
    if n <= 0 || n > src.len() {
        None
    } else if first_conflict(dest, src, n - 1) is Some {
        first_conflict(dest, src, n - 1)
    } else {
        match first_of(dest, src[n - 1]) {
            Some(i) => Some((i, n - 1)),
            None => None,
        }
    }
}

/// Without a conflict no unit of `src` has the identifier of a unit of
/// `dest`.
pub proof fn lemma_no_conflict(dest: Seq<IdView>, src: Seq<IdView>, n: int)
    requires
        0 <= n <= src.len(),
        first_conflict(dest, src, n) is None,
    ensures
        forall|i: int, j: int|
            0 <= i < dest.len() && 0 <= j < n ==> #[trigger] dest[i] != #[trigger] src[j],
    decreases n,
{
    if n > 0 {
        lemma_no_conflict(dest, src, n - 1);
        lemma_first_of(dest, src[n - 1]);
    }
}

/// Project specifications are comprised of logical units, each under its
/// own identifier.
///
/// The units are kept in a list, in the order in which they came, and
/// found by comparing identifiers part by part: what the list holds and
/// that no identifier stands twice in it is then stated and proved.
#[derive(Debug, Clone, PartialEq, Eq)]
pub struct ProjectSpecifications {
    units: Vec<LogicalUnit>,
}

impl View for ProjectSpecifications {
    type V = Seq<LogicalUnitView>;

    closed spec fn view(&self) -> Seq<LogicalUnitView> {
        units_view(self.units@)
    }
}

/// The identifiers of units given by their views.
pub open spec fn view_ids(units: Seq<LogicalUnitView>) -> Seq<IdView> {
    Seq::new(units.len(), |i: int| units[i].id)
}

impl ProjectSpecifications {
    /// Whether each unit has an identifier of its own.
    pub open spec fn wf(&self) -> bool {
        distinct_ids(view_ids(self@))
    }

    /// Creates an empty set of project specifications.
    pub fn new() -> (r: ProjectSpecifications)
        ensures
            r@.len() == 0,
            r.wf(),
    {
        ProjectSpecifications { units: Vec::new() }
    }

    /// The number of units.
    pub fn len(&self) -> (n: usize)
        ensures
            n == self@.len(),
    {
        self.units.len()
    }

    /// The unit with the identifier `id`, if there is one.
    pub fn get(&self, id: &Id) -> (r: Option<&LogicalUnit>)
        ensures
            match r {
                Some(unit) => first_of(view_ids(self@), id@) is Some && unit@ == self@[first_of(
                    view_ids(self@),
                    id@,
                ).unwrap()],
                None => first_of(view_ids(self@), id@) is None,
            },
    {
        proof {
            assert(view_ids(self@) =~= unit_ids(self.units@));
            lemma_first_of(view_ids(self@), id@);
        }
        match first_unit_with(&self.units, id) {
            Some(i) => Some(&self.units[i]),
            None => None,
        }
    }

    /// The units, in the order in which they were added.
    pub fn units(&self) -> (r: &Vec<LogicalUnit>)
        ensures
            units_view(r@) == self@,
    {
        &self.units
    }

    /// Adds a unit.
    ///
    /// Fails exactly when a unit with the same identifier is there, and
    /// names the identifier and both units; the specifications are then as
    /// they were.
    pub fn insert(&mut self, unit: LogicalUnit) -> (r: Result<(), SpecificationParseError>)
        requires
            old(self).wf(),
        ensures
            final(self).wf(),
            match r {
                Ok(()) => first_of(view_ids(old(self)@), unit.id@) is None && final(self)@ == old(
                    self,
                )@.push(unit@),
                Err(SpecificationParseError::DuplicateLogicalUnit(id, first, second)) => {
                    &&& first_of(view_ids(old(self)@), unit.id@) is Some
                    &&& final(self)@ == old(self)@
                    &&& id@ == id_text(unit.id@)
                    &&& first@ == unit_display_text(
                        old(self)@[first_of(view_ids(old(self)@), unit.id@).unwrap()],
                    )
                    &&& second@ == unit_display_text(unit@)
                },
                Err(_) => false,
            },
    {
        proof {
            assert(view_ids(self@) =~= unit_ids(self.units@));
            lemma_first_of(view_ids(self@), unit.id@);
        }
        match first_unit_with(&self.units, &unit.id) {
            Some(i) => Err(
                SpecificationParseError::DuplicateLogicalUnit(
                    unit.id.to_string(),
                    self.units[i].to_string(),
                    unit.to_string(),
                ),
            ),
            None => {
                let ghost before = self@;
                self.units.push(unit);
                proof {
                    assert(self@ =~= before.push(unit@));
                    assert forall|i: int, j: int|
                        0 <= i < j < view_ids(self@).len() implies #[trigger] view_ids(self@)[i]
                        != #[trigger] view_ids(self@)[j] by {
                        assert(view_ids(self@)[i] == view_ids(before)[i]);
                        if j < before.len() {
                            assert(view_ids(self@)[j] == view_ids(before)[j]);
                        }
                    }
                }
                Ok(())
            },
        }
    }
}

impl Default for ProjectSpecifications {
    fn default() -> (r: ProjectSpecifications)
        ensures
            r@.len() == 0,
    {
        ProjectSpecifications::new()
    }
}

/// Merges two sets of units into one that holds the units of `dest`
/// followed by those of `src`.
///
/// Fails exactly when a unit of `src` has the identifier of a unit of
/// `dest`. The error then names the identifier and both units, the one of
/// `dest` first; neither is kept silently.
pub fn merge_project_lu_maps(dest: ProjectSpecifications, src: ProjectSpecifications) -> (r: Result<
    ProjectSpecifications,
    SpecificationParseError,
>)
    requires
        dest.wf(),
        src.wf(),
    ensures
        match r {
            Ok(merged) => {
                &&& first_conflict(view_ids(dest@), view_ids(src@), src@.len() as int) is None
                &&& merged@ == dest@ + src@
                &&& merged.wf()
            },
            Err(SpecificationParseError::DuplicateLogicalUnit(id, first, second)) => {
                let conflict = first_conflict(view_ids(dest@), view_ids(src@), src@.len() as int);
                &&& conflict is Some
                &&& id@ == id_text(view_ids(src@)[conflict.unwrap().1])
                &&& id@ == id_text(view_ids(dest@)[conflict.unwrap().0])
                &&& first@ == unit_display_text(dest@[conflict.unwrap().0])
                &&& second@ == unit_display_text(src@[conflict.unwrap().1])
            },
            Err(_) => false,
        },
{
    let ghost dv = view_ids(dest@);
    let ghost sv = view_ids(src@);
    let mut j: usize = 0;
    proof {
        assert(dv =~= unit_ids(dest.units@));
    }
    while j < src.units.len()
        invariant
            dv == view_ids(dest@),
            dv == unit_ids(dest.units@),
            sv == view_ids(src@),
            j <= src.units.len(),
            first_conflict(dv, sv, j as int) is None,
        decreases src.units.len() - j,
    {
        assert(sv[j as int] == src.units@[j as int].id@);
        match first_unit_with(&dest.units, &src.units[j].id) {
            Some(i) => {
                proof {
                    lemma_first_of(dv, sv[j as int]);
                    lemma_conflict_stays(dv, sv, j + 1, src@.len() as int);
                }
                return Err(
                    SpecificationParseError::DuplicateLogicalUnit(
                        src.units[j].id.to_string(),
                        dest.units[i].to_string(),
                        src.units[j].to_string(),
                    ),
                );
            },
            None => {},
        }
        j += 1;
    }
    let mut units = dest.units;
    let ghost before = units_view(units@);
    let mut k: usize = 0;
    while k < src.units.len()
        invariant
            k <= src.units.len(),
            units_view(units@) == before + src@.take(k as int),
        decreases src.units.len() - k,
    {
        let ghost so_far = units_view(units@);
        let unit = src.units[k].copy();
        units.push(unit);
        proof {
            assert(units_view(units@) =~= so_far.push(unit@));
            assert(src@.take(k + 1) =~= src@.take(k as int).push(src@[k as int]));
            assert(before + src@.take(k + 1) =~= (before + src@.take(k as int)).push(unit@));
        }
        k += 1;
    }
    let merged = ProjectSpecifications { units };
    proof {
        assert(src@.take(src@.len() as int) =~= src@);
        assert(merged@ == dest@ + src@);
        lemma_no_conflict(dv, sv, src@.len() as int);
        let mv = view_ids(merged@);
        assert forall|a: int, b: int| 0 <= a < b < mv.len() implies #[trigger] mv[a]
            != #[trigger] mv[b] by {
            if b < dv.len() {
                assert(mv[a] == dv[a] && mv[b] == dv[b]);
            } else if a < dv.len() {
                assert(mv[a] == dv[a] && mv[b] == sv[b - dv.len()]);
            } else {
                assert(mv[a] == sv[a - dv.len()] && mv[b] == sv[b - dv.len()]);
            }
        }
    }
    Ok(merged)
}

/// A conflict among the first `n` units is the first conflict among the
/// first `m`.
proof fn lemma_conflict_stays(dest: Seq<IdView>, src: Seq<IdView>, n: int, m: int)
    requires
        0 <= n <= m <= src.len(),
        first_conflict(dest, src, n) is Some,
    ensures
        first_conflict(dest, src, m) == first_conflict(dest, src, n),
    decreases m - n,
{
    if n < m {
        lemma_conflict_stays(dest, src, n, m - 1);
    }
}

/// Merging rejects duplicates: two sets that share an identifier have a
/// conflict, so that merging them fails.
pub proof fn lemma_shared_id_is_a_conflict(dest: Seq<IdView>, src: Seq<IdView>, i: int, j: int)
    requires
        0 <= i < dest.len(),
        0 <= j < src.len(),
        dest[i] == src[j],
    ensures
        first_conflict(dest, src, src.len() as int) is Some,
{
    lemma_first_of(dest, src[j]);
    assert(first_conflict(dest, src, j + 1) is Some);
    lemma_conflict_stays(dest, src, j + 1, src.len() as int);
}

/// The first unit among the first `n` that has the identifier of an
/// earlier one, with that earlier unit: the index of the earlier first.
pub open spec fn first_repeat(ids: Seq<IdView>, n: int) -> Option<(int, int)>
    decreases n,
{
    if n <= 0 || n > ids.len() {
        None
    } else if first_repeat(ids, n - 1) is Some {
        first_repeat(ids, n - 1)
    } else {
        match first_of(ids.take(n - 1), ids[n - 1]) {
            Some(i) => Some((i, n - 1)),
            None => None,
        }
    }
}

proof fn lemma_repeat_stays(ids: Seq<IdView>, n: int, m: int)
    requires
        0 <= n <= m <= ids.len(),
        first_repeat(ids, n) is Some,
    ensures
        first_repeat(ids, m) == first_repeat(ids, n),
    decreases m - n,
{
    if n < m {
        lemma_repeat_stays(ids, n, m - 1);
    }
}

impl ProjectSpecifications {
    /// The specifications that hold `units`, in order.
    ///
    /// Fails exactly when two of the units have the same identifier, and
    /// then names the identifier and both units: the first unit that
    /// repeats an identifier, and the unit it repeats.
    pub fn from_units(units: Vec<LogicalUnit>) -> (r: Result<
        ProjectSpecifications,
        SpecificationParseError,
    >)
        ensures
            match r {
                Ok(specs) => {
                    &&& first_repeat(unit_ids(units@), units@.len() as int) is None
                    &&& specs@ == units_view(units@)
                    &&& specs.wf()
                },
                Err(SpecificationParseError::DuplicateLogicalUnit(id, first, second)) => {
                    let repeat = first_repeat(unit_ids(units@), units@.len() as int);
                    &&& repeat is Some
                    &&& id@ == id_text(unit_ids(units@)[repeat.unwrap().1])
                    &&& first@ == unit_display_text(units@[repeat.unwrap().0]@)
                    &&& second@ == unit_display_text(units@[repeat.unwrap().1]@)
                },
                Err(_) => false,
            },
    {
        let ghost ids = unit_ids(units@);
        let mut specs = ProjectSpecifications::new();
        let mut i: usize = 0;
        proof {
            assert(specs@ =~= units_view(units@).take(0));
        }
        while i < units.len()
            invariant
                ids == unit_ids(units@),
                i <= units.len(),
                specs.wf(),
                specs@ == units_view(units@).take(i as int),
                first_repeat(ids, i as int) is None,
            decreases units.len() - i,
        {
            proof {
                assert(view_ids(specs@) =~= ids.take(i as int));
                assert(ids[i as int] == units@[i as int].id@);
            }
            let ghost before = specs@;
            match specs.insert(units[i].copy()) {
                Ok(()) => {
                    proof {
                        assert(units_view(units@).take(i + 1) =~= units_view(units@).take(
                            i as int,
                        ).push(units@[i as int]@));
                    }
                },
                Err(e) => {
                    proof {
                        lemma_first_of(ids.take(i as int), ids[i as int]);
                        let k = first_of(ids.take(i as int), ids[i as int]).unwrap();
                        assert(before[k] == units@[k]@);
                        assert(first_repeat(ids, i + 1) == Some((k, i as int)));
                        lemma_repeat_stays(ids, i + 1, units@.len() as int);
                    }
                    return Err(e);
                },
            }
            i += 1;
        }
        proof {
            assert(units_view(units@).take(units@.len() as int) =~= units_view(units@));
        }
        Ok(specs)
    }
}

} // verus!
