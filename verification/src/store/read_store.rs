//! The read view's operations: the read core, pinned to one authority, with nothing layered on top.

use crate::bytes;
use crate::fold::Fold;
use crate::part;
use crate::part::{Part, ReadError};
use crate::read_limits::ReadLimits;
use crate::store::manifest::Manifest;
use crate::store::open::ReadStore;
use crate::store::project;
use crate::store::project::ProjectError;
use crate::store::read;
use crate::store::scan;
use crate::store::scan::{PartPredicate, RowBatch, RowOrigin, RowRef, RowScan, ScanPhysicalScope};
use crate::types;
use crate::types::{Content, Record};
use vstd::prelude::*;

verus! {

/// A scan range whose start sorts after its end.
#[derive(Clone, Copy, Debug, PartialEq, Eq, Structural)]
pub struct InvertedRange;

/// Whether a range's start sorts after its end.
pub open spec fn inverted(from: Option<Seq<char>>, to: Option<Seq<char>>) -> bool {
    from is Some && to is Some && bytes::name_lt(to->0, from->0)
}

/// Refuse an inverted range. Equal bounds are an empty range and are allowed.
pub fn check_range(from: Option<&str>, to: Option<&str>) -> (r: Result<(), InvertedRange>)
    ensures
        r is Err <==> inverted(part::bound_view(from), part::bound_view(to)),
{
    if let (Some(f), Some(t)) = (from, to) {
        if bytes::str_lt(t, f) {
            return Err(InvertedRange);
        }
    }
    Ok(())
}

impl ReadStore {
    /// Every part's rows are in order.
    pub open spec fn wf(&self) -> bool {
        part::parts_sound(self@.parts)
    }

    /// Every row can be counted.
    pub open spec fn countable(&self) -> bool {
        read::rows_total(self@.parts, 0) <= usize::MAX
    }

    /// Whether every row can be counted, which a scan depends on.
    pub fn is_countable(&self) -> (r: bool)
        ensures
            r == self.countable(),
    {
        read::rows_fit(&self.parts, 0)
    }

    /// The limits that govern this view.
    pub fn read_limits(&self) -> (r: ReadLimits)
        ensures
            r == self@.read_limits,
    {
        self.read_limits
    }

    /// The committed record of an id.
    pub fn get(&self, id: &str) -> (r: Option<Record>)
        requires
            self.wf(),
        ensures
            part::record_view(r) == read::current(self@.parts, id@),
    {
        read::get(&self.parts, id)
    }

    /// Byte-exact content of an id under the conventional name.
    pub fn reconstruct(&self, id: &str) -> (r: Result<Option<Vec<u8>>, ReadError>)
        requires
            self.wf(),
        ensures
            read::value_of(self@.parts, self@.fold, id@, types::BODY_CONTENT@) == (match r {
                Ok(Some(b)) => Ok::<Option<Seq<u8>>, ReadError>(Some(b@)),
                Ok(None) => Ok(None),
                Err(e) => Err(e),
            }),
    {
        read::reconstruct(&self.parts, &self.fold, id)
    }

    /// Byte-exact named content of an id.
    pub fn reconstruct_content(&self, id: &str, name: &str) -> (r: Result<
        Option<Vec<u8>>,
        ReadError,
    >)
        requires
            self.wf(),
        ensures
            read::value_of(self@.parts, self@.fold, id@, name@) == (match r {
                Ok(Some(b)) => Ok::<Option<Seq<u8>>, ReadError>(Some(b@)),
                Ok(None) => Ok(None),
                Err(e) => Err(e),
            }),
    {
        read::reconstruct_content(&self.parts, &self.fold, id, name)
    }

    /// Every live id, sorted.
    pub fn ids(&self) -> (r: Vec<String>)
        requires
            self.wf(),
            self.countable(),
        ensures
            scan::ascending(scan::texts_view(r@)),
            forall|id: Seq<char>|
                #[trigger] scan::texts_view(r@).contains(id) <==> read::current(
                    self@.parts,
                    id,
                ) is Some,
    {
        scan::ids(&self.parts)
    }

    /// One bounded page of resolved rows.
    pub fn scan(&self, request: RowScan<'_>) -> (r: Result<RowBatch, InvertedRange>)
        requires
            self.wf(),
            self.countable(),
        ensures
            match r {
                Ok(b) => !inverted(request@.from, request@.to) && b@ == scan::scanned(
                    self@.parts,
                    Seq::empty(),
                    request@,
                ),
                Err(_) => inverted(request@.from, request@.to),
            },
    {
        if check_range(request.from, request.to).is_err() {
            return Err(InvertedRange);
        }
        let overlay: Vec<(&str, bool)> = Vec::new();
        assert(scan::overlay_view(overlay@) =~= Seq::<(Seq<char>, bool)>::empty());
        Ok(scan::scan_rows(&self.parts, &overlay, request))
    }

    /// The rows and parts a scan reaches, before versions are resolved; `None` where the row count
    /// does not fit.
    pub fn explain_scan(&self, request: RowScan<'_>) -> (r: Option<ScanPhysicalScope>)
        requires
            self.wf(),
        ensures
            match r {
                Some(s) => {
                    &&& s.immutable_parts_considered == self@.parts.len()
                    &&& s.immutable_parts_with_rows == scan::parts_in_bounds(
                        self@.parts,
                        request@.from,
                        request@.to,
                        self@.parts.len(),
                    )
                    &&& s.immutable_rows_in_bounds == scan::rows_in_bounds(
                        self@.parts,
                        request@.from,
                        request@.to,
                        self@.parts.len(),
                    )
                },
                None => scan::rows_in_bounds(
                    self@.parts,
                    request@.from,
                    request@.to,
                    self@.parts.len(),
                ) > usize::MAX,
            },
    {
        scan::scan_physical_scope(&self.parts, request.from, request.to)
    }

    /// Live ids of a half-open range, in id order or reversed, up to a limit.
    pub fn scan_ids(
        &self,
        from: Option<&str>,
        to: Option<&str>,
        limit: usize,
        reverse: bool,
    ) -> (r: Result<Vec<String>, InvertedRange>)
        requires
            self.wf(),
            self.countable(),
        ensures
            match r {
                Ok(ids) => !inverted(part::bound_view(from), part::bound_view(to))
                    && scan::texts_view(ids@) == scan::ids_of(
                    scan::scanned(
                        self@.parts,
                        Seq::empty(),
                        scan::plain_scan(
                            part::bound_view(from),
                            part::bound_view(to),
                            limit,
                            reverse,
                        ),
                    ).rows,
                ),
                Err(_) => inverted(part::bound_view(from), part::bound_view(to)),
            },
    {
        if check_range(from, to).is_err() {
            return Err(InvertedRange);
        }
        Ok(scan::scan_ids(&self.parts, from, to, limit, reverse))
    }

    /// Whether a resolved row's part may meet every condition; `None` for a part that is not here.
    pub fn candidate_may_match(&self, row: &RowRef, predicates: &Vec<PartPredicate<'_>>) -> (r: Option<
        bool,
    >)
        ensures
            match row.origin {
                RowOrigin::Memtable => r == Some(true),
                RowOrigin::Part { part, row } => match r {
                    None => part >= self@.parts.len(),
                    Some(ok) => part < self@.parts.len() && ok == forall|i: int|
                        0 <= i < predicates@.len() ==> scan::may_match(
                            self@.parts[part as int],
                            #[trigger] predicates@[i],
                        ),
                },
            },
    {
        match row.origin {
            RowOrigin::Memtable => Some(true),
            RowOrigin::Part { part, row } => {
                if part >= self.parts.len() {
                    return None;
                }
                assert(self@.parts[part as int] == self.parts@[part as int]@);
                Some(scan::part_may_match(&self.parts[part], predicates))
            },
        }
    }

    /// The wanted fields of resolved rows.
    pub fn project_candidates(
        &self,
        resolved: &Vec<RowRef>,
        attrs: &Vec<&str>,
        contents: &Vec<&str>,
    ) -> (r: Result<Vec<Record>, ProjectError>)
        ensures
            ({
                let refs = scan::row_refs_view(resolved@);
                match r {
                    Ok(records) => project::projection_fault(self@.parts, refs) is None
                        && project::records_view(records@) == Seq::new(
                        refs.len(),
                        |i: int|
                            project::projected(
                                self@.parts,
                                refs[i],
                                project::names_view(attrs@),
                                project::names_view(contents@),
                            ),
                    ),
                    Err(e) => project::projection_fault(self@.parts, refs) == Some(e),
                }
            }),
    {
        project::project_rows(&self.parts, resolved, attrs, contents)
    }

    /// The value of a projected content of one resolved row.
    pub fn reconstruct_candidate_content(&self, resolved: &RowRef, content: &Content) -> (r: Result<
        Vec<u8>,
        ProjectError,
    >)
        ensures
            project::projected_value(self@.parts, self@.fold, resolved@, content@) == (match r {
                Ok(b) => Ok::<Seq<u8>, ProjectError>(b@),
                Err(e) => Err(e),
            }),
    {
        project::reconstruct_projected_content(&self.parts, &self.fold, resolved, content)
    }

    /// Hand out the fold and the parts.
    pub fn into_parts(self) -> (r: (Fold, Vec<Part>))
        ensures
            r.0@ == self@.fold,
            part::parts_view(r.1@) == self@.parts,
    {
        (self.fold, self.parts)
    }

    /// Number of parts.
    pub fn part_count(&self) -> (r: usize)
        ensures
            r == self@.parts.len(),
    {
        self.parts.len()
    }

    /// Parts, oldest to newest.
    pub fn parts(&self) -> (r: &Vec<Part>)
        ensures
            part::parts_view(r@) == self@.parts,
    {
        &self.parts
    }

    /// The fold.
    pub fn fold(&self) -> (r: &Fold)
        ensures
            r@ == self@.fold,
    {
        &self.fold
    }

    /// The authority this view is pinned to.
    pub fn manifest(&self) -> (r: &Manifest)
        ensures
            r@ == self@.manifest,
    {
        &self.manifest
    }
}

} // verus!
