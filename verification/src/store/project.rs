//! Projection: the wanted fields of rows that a scan resolved.

use crate::bytes;
use crate::fold::{Fold, FoldView};
use crate::part;
use crate::part::{Part, PartView, ReadError};
use crate::store::scan;
use crate::store::scan::{RowOrigin, RowRef, RowRefView};
use crate::types;
use crate::types::{AttrValue, AttrView, Content, ContentView, Record, RecordView};
use vstd::prelude::*;

verus! {

/// Why resolved rows do not belong to the parts at hand.
#[derive(Clone, Copy, Debug, PartialEq, Eq, Structural)]
pub enum ProjectError {
    /// The row lives in the memtable, not in a part.
    MemtableRow,
    /// There is no such part.
    PartOutside { part: usize },
    /// The part has no such row.
    RowOutside { part: usize, row: usize },
    /// The stored content does not read.
    Read { error: ReadError },
}

/// Views of names.
pub open spec fn names_view(names: Seq<&str>) -> Seq<Seq<char>> {
    Seq::new(names.len(), |i: int| names[i]@)
}

/// The attributes with a wanted name, in order.
pub open spec fn attrs_selected(
    attrs: Seq<(Seq<char>, AttrView)>,
    wanted: Seq<Seq<char>>,
) -> Seq<(Seq<char>, AttrView)>
    decreases attrs.len(),
{
    if attrs.len() == 0 {
        Seq::empty()
    } else {
        let before = attrs_selected(attrs.drop_last(), wanted);
        if wanted.contains(attrs.last().0) {
            before.push(attrs.last())
        } else {
            before
        }
    }
}

/// The contents with a wanted name, in order.
pub open spec fn contents_selected(
    contents: Seq<ContentView>,
    wanted: Seq<Seq<char>>,
) -> Seq<ContentView>
    decreases contents.len(),
{
    if contents.len() == 0 {
        Seq::empty()
    } else {
        let before = contents_selected(contents.drop_last(), wanted);
        if wanted.contains(contents.last().name) {
            before.push(contents.last())
        } else {
            before
        }
    }
}

/// One row with the wanted fields alone; a tombstone has none.
pub open spec fn projected(
    parts: Seq<PartView>,
    r: RowRefView,
    attrs: Seq<Seq<char>>,
    contents: Seq<Seq<char>>,
) -> RecordView {
    let (p, row) = (r.origin->part, r.origin->row);
    match parts[p as int].rows[row as int].record {
        Some(record) => RecordView {
            id: r.id,
            contents: contents_selected(record.contents, contents),
            attrs: attrs_selected(record.attrs, attrs),
        },
        None => RecordView { id: r.id, contents: Seq::empty(), attrs: Seq::empty() },
    }
}

/// The first row of part `p`, in the order of the list, that the part does not have.
pub open spec fn bad_row(parts: Seq<PartView>, refs: Seq<RowRefView>, p: int, n: nat) -> Option<
    usize,
>
    decreases n,
{
    if n == 0 {
        None
    } else {
        match bad_row(parts, refs, p, (n - 1) as nat) {
            Some(row) => Some(row),
            None => match refs[n - 1].origin {
                RowOrigin::Part { part, row } => if part == p && row >= parts[p].rows.len() {
                    Some(row)
                } else {
                    None
                },
                RowOrigin::Memtable => None,
            },
        }
    }
}

/// The first fault over the first `np` parts.
pub open spec fn rows_outside(parts: Seq<PartView>, refs: Seq<RowRefView>, np: nat) -> Option<
    ProjectError,
>
    decreases np,
{
    if np == 0 {
        None
    } else {
        match rows_outside(parts, refs, (np - 1) as nat) {
            Some(e) => Some(e),
            None => match bad_row(parts, refs, np - 1, refs.len()) {
                Some(row) => Some(ProjectError::RowOutside { part: (np - 1) as usize, row }),
                None => None,
            },
        }
    }
}

/// The least part that does not exist among the first `n` rows.
pub open spec fn part_outside(refs: Seq<RowRefView>, count: nat, n: nat) -> Option<usize>
    decreases n,
{
    if n == 0 {
        None
    } else {
        let before = part_outside(refs, count, (n - 1) as nat);
        match refs[n - 1].origin {
            RowOrigin::Part { part, row } => if part >= count && (before is None || part
                < before->0) {
                Some(part)
            } else {
                before
            },
            RowOrigin::Memtable => before,
        }
    }
}

/// What is wrong first with resolved rows: a memtable row, else the fault of the least part.
pub open spec fn projection_fault(parts: Seq<PartView>, refs: Seq<RowRefView>) -> Option<
    ProjectError,
> {
    if exists|i: int| 0 <= i < refs.len() && (#[trigger] refs[i]).origin == RowOrigin::Memtable {
        Some(ProjectError::MemtableRow)
    } else if rows_outside(parts, refs, parts.len()) is Some {
        rows_outside(parts, refs, parts.len())
    } else {
        match part_outside(refs, parts.len(), refs.len()) {
            Some(part) => Some(ProjectError::PartOutside { part }),
            None => None,
        }
    }
}

fn is_wanted(wanted: &Vec<&str>, name: &str) -> (r: bool)
    ensures
        r == names_view(wanted@).contains(name@),
{
    let mut i: usize = 0;
    while i < wanted.len()
        invariant
            i <= wanted@.len(),
            forall|k: int| 0 <= k < i ==> wanted@[k]@ != name@,
        decreases wanted.len() - i,
    {
        if bytes::str_eq(wanted[i], name) {
            assert(names_view(wanted@)[i as int] == name@);
            return true;
        }
        i = i + 1;
    }
    assert forall|k: int| 0 <= k < wanted@.len() implies names_view(wanted@)[k] != name@ by {
        assert(wanted@[k]@ != name@);
    }
    false
}

pub(crate) fn select_attrs(attrs: &Vec<(String, AttrValue)>, wanted: &Vec<&str>) -> (r: Vec<
    (String, AttrValue),
>)
    ensures
        types::attrs_view(r@) == attrs_selected(types::attrs_view(attrs@), names_view(wanted@)),
{
    let ghost all = types::attrs_view(attrs@);
    let mut out: Vec<(String, AttrValue)> = Vec::new();
    let mut i: usize = 0;
    assert(types::attrs_view(out@) =~= attrs_selected(all.take(0), names_view(wanted@)));
    while i < attrs.len()
        invariant
            all == types::attrs_view(attrs@),
            i <= attrs@.len(),
            types::attrs_view(out@) == attrs_selected(all.take(i as int), names_view(wanted@)),
        decreases attrs.len() - i,
    {
        proof {
            assert(all.take(i + 1).drop_last() =~= all.take(i as int));
            assert(all.take(i + 1).last() == (attrs@[i as int].0@, attrs@[i as int].1@));
        }
        if is_wanted(wanted, attrs[i].0.as_str()) {
            let ghost before = out@;
            out.push((attrs[i].0.clone(), attrs[i].1.clone()));
            assert(types::attrs_view(out@) =~= types::attrs_view(before).push(
                all.take(i + 1).last(),
            ));
        }
        i = i + 1;
    }
    assert(all.take(i as int) =~= all);
    out
}

pub(crate) fn select_contents(contents: &Vec<Content>, wanted: &Vec<&str>) -> (r: Vec<Content>)
    ensures
        types::contents_view(r@) == contents_selected(
            types::contents_view(contents@),
            names_view(wanted@),
        ),
{
    let ghost all = types::contents_view(contents@);
    let mut out: Vec<Content> = Vec::new();
    let mut i: usize = 0;
    assert(types::contents_view(out@) =~= contents_selected(all.take(0), names_view(wanted@)));
    while i < contents.len()
        invariant
            all == types::contents_view(contents@),
            i <= contents@.len(),
            types::contents_view(out@) == contents_selected(
                all.take(i as int),
                names_view(wanted@),
            ),
        decreases contents.len() - i,
    {
        proof {
            assert(all.take(i + 1).drop_last() =~= all.take(i as int));
            assert(all.take(i + 1).last() == contents@[i as int]@);
        }
        if is_wanted(wanted, contents[i].name.as_str()) {
            let ghost before = out@;
            out.push(contents[i].clone());
            assert(types::contents_view(out@) =~= types::contents_view(before).push(
                all.take(i + 1).last(),
            ));
        }
        i = i + 1;
    }
    assert(all.take(i as int) =~= all);
    out
}

fn check_rows(parts: &Vec<Part>, resolved: &Vec<RowRef>) -> (r: Result<(), ProjectError>)
    ensures
        match r {
            Ok(()) => projection_fault(
                part::parts_view(parts@),
                scan::row_refs_view(resolved@),
            ) is None,
            Err(e) => projection_fault(
                part::parts_view(parts@),
                scan::row_refs_view(resolved@),
            ) == Some(e),
        },
{
    let ghost all = part::parts_view(parts@);
    let ghost refs = scan::row_refs_view(resolved@);
    let mut outside: Option<usize> = None;
    let mut i: usize = 0;
    while i < resolved.len()
        invariant
            all == part::parts_view(parts@),
            refs == scan::row_refs_view(resolved@),
            i <= resolved@.len(),
            forall|k: int| 0 <= k < i ==> (#[trigger] refs[k]).origin != RowOrigin::Memtable,
            outside == part_outside(refs, all.len(), i as nat),
        decreases resolved.len() - i,
    {
        assert(refs[i as int] == resolved@[i as int]@);
        match resolved[i].origin {
            RowOrigin::Memtable => {
                return Err(ProjectError::MemtableRow);
            },
            RowOrigin::Part { part, row } => {
                if part >= parts.len() {
                    let less = match outside {
                        Some(least) => part < least,
                        None => true,
                    };
                    if less {
                        outside = Some(part);
                    }
                }
            },
        }
        i = i + 1;
    }
    let mut p: usize = 0;
    while p < parts.len()
        invariant
            all == part::parts_view(parts@),
            refs == scan::row_refs_view(resolved@),
            p <= parts@.len(),
            forall|k: int|
                0 <= k < refs.len() ==> (#[trigger] refs[k]).origin != RowOrigin::Memtable,
            rows_outside(all, refs, p as nat) is None,
        decreases parts.len() - p,
    {
        let rows: usize = parts[p].rows.len();
        assert(all[p as int] == parts@[p as int]@);
        let mut k: usize = 0;
        while k < resolved.len()
            invariant
                all == part::parts_view(parts@),
                refs == scan::row_refs_view(resolved@),
                p < parts@.len(),
                rows == all[p as int].rows.len(),
                k <= resolved@.len(),
                forall|j: int|
                    0 <= j < refs.len() ==> (#[trigger] refs[j]).origin != RowOrigin::Memtable,
                rows_outside(all, refs, p as nat) is None,
                bad_row(all, refs, p as int, k as nat) is None,
            decreases resolved.len() - k,
        {
            assert(refs[k as int] == resolved@[k as int]@);
            if let RowOrigin::Part { part, row } = resolved[k].origin {
                if part == p && row >= rows {
                    proof {
                        lemma_bad_row_prefix(all, refs, p as int, (k + 1) as nat, refs.len());
                        lemma_rows_outside_prefix(all, refs, (p + 1) as nat, all.len());
                    }
                    return Err(ProjectError::RowOutside { part: p, row });
                }
            }
            k = k + 1;
        }
        p = p + 1;
    }
    match outside {
        Some(part) => Err(ProjectError::PartOutside { part }),
        None => Ok(()),
    }
}

proof fn lemma_bad_row_prefix(
    parts: Seq<PartView>,
    refs: Seq<RowRefView>,
    p: int,
    k: nat,
    n: nat,
)
    requires
        k <= n,
        bad_row(parts, refs, p, k) is Some,
    ensures
        bad_row(parts, refs, p, n) == bad_row(parts, refs, p, k),
    decreases n,
{
    if k < n {
        lemma_bad_row_prefix(parts, refs, p, k, (n - 1) as nat);
    }
}

proof fn lemma_rows_outside_prefix(parts: Seq<PartView>, refs: Seq<RowRefView>, k: nat, n: nat)
    requires
        k <= n,
        rows_outside(parts, refs, k) is Some,
    ensures
        rows_outside(parts, refs, n) == rows_outside(parts, refs, k),
    decreases n,
{
    if k < n {
        lemma_rows_outside_prefix(parts, refs, k, (n - 1) as nat);
    }
}

/// Without a fault, every row is in its part.
pub proof fn lemma_rows_inside(parts: Seq<PartView>, refs: Seq<RowRefView>, i: int)
    requires
        projection_fault(parts, refs) is None,
        0 <= i < refs.len(),
    ensures
        refs[i].origin is Part,
        refs[i].origin->part < parts.len(),
        refs[i].origin->row < parts[refs[i].origin->part as int].rows.len(),
{
    assert(refs[i].origin != RowOrigin::Memtable);
    let p = refs[i].origin->part;
    lemma_part_outside_each(refs, parts.len(), refs.len(), i);
    lemma_rows_outside_each(parts, refs, parts.len(), p as int);
    lemma_bad_row_each(parts, refs, p as int, refs.len(), i);
}

proof fn lemma_part_outside_each(refs: Seq<RowRefView>, count: nat, n: nat, i: int)
    requires
        part_outside(refs, count, n) is None,
        0 <= i < n,
    ensures
        refs[i].origin matches RowOrigin::Part { part, row } ==> part < count,
    decreases n,
{
    if i < n - 1 {
        lemma_part_outside_each(refs, count, (n - 1) as nat, i);
    }
}

proof fn lemma_rows_outside_each(parts: Seq<PartView>, refs: Seq<RowRefView>, np: nat, p: int)
    requires
        rows_outside(parts, refs, np) is None,
        0 <= p < np,
    ensures
        bad_row(parts, refs, p, refs.len()) is None,
    decreases np,
{
    if p < np - 1 {
        lemma_rows_outside_each(parts, refs, (np - 1) as nat, p);
    }
}

proof fn lemma_bad_row_each(parts: Seq<PartView>, refs: Seq<RowRefView>, p: int, n: nat, i: int)
    requires
        bad_row(parts, refs, p, n) is None,
        0 <= i < n,
    ensures
        refs[i].origin matches RowOrigin::Part { part, row } ==> part == p ==> row
            < parts[p].rows.len(),
    decreases n,
{
    if i < n - 1 {
        lemma_bad_row_each(parts, refs, p, (n - 1) as nat, i);
    }
}

/// Views of records.
pub open spec fn records_view(records: Seq<Record>) -> Seq<RecordView> {
    Seq::new(records.len(), |i: int| records[i]@)
}

/// The wanted fields of resolved rows, in the order they were resolved.
pub fn project_rows(
    parts: &Vec<Part>,
    resolved: &Vec<RowRef>,
    attrs: &Vec<&str>,
    contents: &Vec<&str>,
) -> (r: Result<Vec<Record>, ProjectError>)
    ensures
        ({
            let all = part::parts_view(parts@);
            let refs = scan::row_refs_view(resolved@);
            match r {
                Ok(records) => projection_fault(all, refs) is None && records_view(records@)
                    == Seq::new(
                    refs.len(),
                    |i: int|
                        projected(all, refs[i], names_view(attrs@), names_view(contents@)),
                ),
                Err(e) => projection_fault(all, refs) == Some(e),
            }
        }),
{
    let ghost all = part::parts_view(parts@);
    let ghost refs = scan::row_refs_view(resolved@);
    if let Err(e) = check_rows(parts, resolved) {
        return Err(e);
    }
    let mut out: Vec<Record> = Vec::new();
    let mut i: usize = 0;
    while i < resolved.len()
        invariant
            all == part::parts_view(parts@),
            refs == scan::row_refs_view(resolved@),
            projection_fault(all, refs) is None,
            i <= resolved@.len(),
            out@.len() == i,
            forall|k: int|
                0 <= k < i ==> (#[trigger] out@[k])@ == projected(
                    all,
                    refs[k],
                    names_view(attrs@),
                    names_view(contents@),
                ),
        decreases resolved.len() - i,
    {
        proof {
            lemma_rows_inside(all, refs, i as int);
            assert(refs[i as int] == resolved@[i as int]@);
        }
        if let RowOrigin::Part { part, row } = resolved[i].origin {
            assert(all[part as int] == parts@[part as int]@);
            assert(all[part as int].rows[row as int] == parts@[part as int].rows@[row as int]@);
            let record = match &parts[part].rows[row].record {
                Some(full) => Record {
                    id: resolved[i].id.clone(),
                    contents: select_contents(&full.contents, contents),
                    attrs: select_attrs(&full.attrs, attrs),
                },
                None => {
                    let empty = Record {
                        id: resolved[i].id.clone(),
                        contents: Vec::new(),
                        attrs: Vec::new(),
                    };
                    assert(empty@.contents =~= Seq::<ContentView>::empty());
                    assert(empty@.attrs =~= Seq::<(Seq<char>, AttrView)>::empty());
                    empty
                },
            };
            out.push(record);
        }
        i = i + 1;
    }
    assert(records_view(out@) =~= Seq::new(
        refs.len(),
        |k: int| projected(all, refs[k], names_view(attrs@), names_view(contents@)),
    ));
    Ok(out)
}

/// The value of a projected content of one resolved row.
pub open spec fn projected_value(
    parts: Seq<PartView>,
    f: FoldView,
    r: RowRefView,
    c: ContentView,
) -> Result<Seq<u8>, ProjectError> {
    match r.origin {
        RowOrigin::Memtable => Err(ProjectError::MemtableRow),
        RowOrigin::Part { part, row } => if part >= parts.len() {
            Err(ProjectError::PartOutside { part })
        } else if row >= parts[part as int].rows.len() {
            Err(ProjectError::RowOutside { part, row })
        } else {
            match part::program_bytes(parts[part as int].pieces, f, c.ops) {
                Ok(b) => Ok(b),
                Err(error) => Err(ProjectError::Read { error }),
            }
        },
    }
}

/// Byte-exact content whose program was projected from a resolved row.
pub fn reconstruct_projected_content(
    parts: &Vec<Part>,
    fold: &Fold,
    resolved: &RowRef,
    content: &Content,
) -> (r: Result<Vec<u8>, ProjectError>)
    ensures
        projected_value(part::parts_view(parts@), fold@, resolved@, content@) == (match r {
            Ok(b) => Ok::<Seq<u8>, ProjectError>(b@),
            Err(e) => Err(e),
        }),
{
    match resolved.origin {
        RowOrigin::Memtable => Err(ProjectError::MemtableRow),
        RowOrigin::Part { part, row } => {
            if part >= parts.len() {
                return Err(ProjectError::PartOutside { part });
            }
            assert(part::parts_view(parts@)[part as int] == parts@[part as int]@);
            if row >= parts[part].rows.len() {
                return Err(ProjectError::RowOutside { part, row });
            }
            match part::run_program(&parts[part].pieces, fold, &content.ops) {
                Ok(b) => Ok(b),
                Err(error) => Err(ProjectError::Read { error }),
            }
        },
    }
}

} // verus!
