//! Laws of projection and of what a scan looks at: of a shown record exactly the wanted fields come
//! back, and a part is passed over only where nothing in it can match.

use crate::bytes;
use crate::fold::FoldView;
use crate::memtable;
use crate::part;
use crate::part::{PartView, ReadError, RowView};
use crate::store::audit_laws;
use crate::store::engine;
use crate::store::engine::StoreView;
use crate::store::engine_read;
use crate::store::project;
use crate::store::project::ProjectError;
use crate::store::read;
use crate::store::read_store;
use crate::store::scan;
use crate::store::scan::{PartPredicate, RowOrigin, RowRefView, ScanView};
use crate::store::scan_laws;
use crate::store::sum_laws;
use crate::types;
use crate::types::{AttrView, ContentView, RecordView};
use vstd::prelude::*;

verus! {

/// A record of which the entries with a wanted name are left, each as often as it was there and in
/// its place among the others, and nothing else.
pub open spec fn fields_of(
    from: RecordView,
    out: RecordView,
    attrs: Seq<Seq<char>>,
    contents: Seq<Seq<char>>,
) -> bool {
    &&& out.id == from.id
    &&& out.attrs == from.attrs.filter(|a: (Seq<char>, AttrView)| attrs.contains(a.0))
    &&& out.contents == from.contents.filter(|c: ContentView| contents.contains(c.name))
}

proof fn lemma_attrs_selected(attrs: Seq<(Seq<char>, AttrView)>, wanted: Seq<Seq<char>>)
    ensures
        project::attrs_selected(attrs, wanted) == attrs.filter(
            |a: (Seq<char>, AttrView)| wanted.contains(a.0),
        ),
    decreases attrs.len(),
{
    reveal(Seq::filter);
    if attrs.len() > 0 {
        lemma_attrs_selected(attrs.drop_last(), wanted);
    }
}

proof fn lemma_contents_selected(contents: Seq<ContentView>, wanted: Seq<Seq<char>>)
    ensures
        project::contents_selected(contents, wanted) == contents.filter(
            |c: ContentView| wanted.contains(c.name),
        ),
    decreases contents.len(),
{
    reveal(Seq::filter);
    if contents.len() > 0 {
        lemma_contents_selected(contents.drop_last(), wanted);
    }
}

/// A part's row is projected to the wanted fields of its record.
pub proof fn lemma_row_projected(
    parts: Seq<PartView>,
    p: usize,
    row: usize,
    attrs: Seq<Seq<char>>,
    contents: Seq<Seq<char>>,
)
    requires
        part::parts_sound(parts),
        p < parts.len(),
        row < parts[p as int].rows.len(),
        parts[p as int].rows[row as int].record is Some,
    ensures
        ({
            let from = parts[p as int].rows[row as int].record->0;
            let r = RowRefView { id: from.id, origin: RowOrigin::Part { part: p, row } };
            fields_of(from, project::projected(parts, r, attrs, contents), attrs, contents)
        }),
{
    let from = parts[p as int].rows[row as int].record->0;
    lemma_attrs_selected(from.attrs, attrs);
    lemma_contents_selected(from.contents, contents);
}

/// Every row that a scan of a writer gives is projected to the wanted fields of the record that the
/// store shows under its id, staged or committed.
pub proof fn lemma_scan_projects(
    s: StoreView,
    req: ScanView,
    i: int,
    attrs: Seq<Seq<char>>,
    contents: Seq<Seq<char>>,
)
    requires
        engine::store_ok(s),
        req.limit > 0,
        read::rows_total(s.parts, 0) <= usize::MAX,
        s.parts.len() <= usize::MAX,
        0 <= i < scan::scanned(s.parts, engine_read::overlay_of(s.mem, req), req).rows.len(),
    ensures
        ({
            let r = scan::scanned(s.parts, engine_read::overlay_of(s.mem, req), req).rows[i];
            &&& part::in_range(r.id, req.from, req.to)
            &&& engine_read::visible(s, r.id) is Some
            &&& engine_read::store_projection_fault(s, seq![r]) is None
            &&& fields_of(
                engine_read::visible(s, r.id)->0,
                engine_read::store_projected(s, r, attrs, contents),
                attrs,
                contents,
            )
        }),
{
    let o = engine_read::overlay_of(s.mem, req);
    let b = scan::scanned(s.parts, o, req);
    let r = b.rows[i];
    scan_laws::lemma_scan_faithful(s.parts, o, req);
    engine_read::lemma_overlay(s.mem, req);
    assert(scan::met(s.parts, o, req, r.id));
    engine_read::lemma_scan_sees_visible(s, req, r.id);
    let from = engine_read::visible(s, r.id)->0;
    lemma_attrs_selected(from.attrs, attrs);
    lemma_contents_selected(from.contents, contents);
    let one = seq![r];
    reveal_with_fuel(engine_read::not_live, 2);
    reveal_with_fuel(engine_read::committed_refs, 2);
    read::lemma_newest(s.parts, r.id);
    if scan::in_overlay(o, r.id) {
        let row = memtable::row_at(s.mem, r.id)->0;
        let none = engine_read::committed_refs(one, 1);
        assert(none =~= Seq::<RowRefView>::empty());
        lemma_nothing_outside(s.parts, none);
    } else {
        let (p, row) = read::newest(s.parts, r.id)->0;
        lemma_row_bound(s.parts, p as int, 0);
        let got = engine_read::committed_refs(one, 1);
        assert(got =~= one);
        lemma_one_inside(s.parts, got, p as int, row as int);
    }
}

proof fn lemma_row_bound(parts: Seq<PartView>, p: int, from: int)
    requires
        0 <= from <= p < parts.len(),
    ensures
        parts[p].rows.len() <= read::rows_total(parts, from),
    decreases parts.len() - from,
{
    if from < p {
        lemma_row_bound(parts, p, from + 1);
    }
}

proof fn lemma_nothing_outside(parts: Seq<PartView>, refs: Seq<RowRefView>)
    requires
        refs.len() == 0,
    ensures
        project::projection_fault(parts, refs) is None,
{
    lemma_no_row_outside(parts, refs, parts.len());
}

proof fn lemma_no_row_outside(parts: Seq<PartView>, refs: Seq<RowRefView>, n: nat)
    requires
        n <= parts.len(),
        forall|i: int| 0 <= i < refs.len() ==> {
            &&& (#[trigger] refs[i]).origin is Part
            &&& refs[i].origin->part < parts.len()
            &&& refs[i].origin->row < parts[refs[i].origin->part as int].rows.len()
        },
    ensures
        project::rows_outside(parts, refs, n) is None,
    decreases n,
{
    if n > 0 {
        lemma_no_row_outside(parts, refs, (n - 1) as nat);
        lemma_no_bad_row(parts, refs, n - 1, refs.len());
    }
}

proof fn lemma_no_bad_row(parts: Seq<PartView>, refs: Seq<RowRefView>, p: int, n: nat)
    requires
        n <= refs.len(),
        0 <= p < parts.len(),
        forall|i: int| 0 <= i < refs.len() ==> {
            &&& (#[trigger] refs[i]).origin is Part
            &&& refs[i].origin->part < parts.len()
            &&& refs[i].origin->row < parts[refs[i].origin->part as int].rows.len()
        },
    ensures
        project::bad_row(parts, refs, p, n) is None,
    decreases n,
{
    if n > 0 {
        lemma_no_bad_row(parts, refs, p, (n - 1) as nat);
        assert(refs[n - 1].origin is Part);
    }
}

proof fn lemma_no_part_outside(refs: Seq<RowRefView>, parts: nat, n: nat)
    requires
        n <= refs.len(),
        forall|i: int| 0 <= i < refs.len() ==> {
            &&& (#[trigger] refs[i]).origin is Part
            &&& refs[i].origin->part < parts
        },
    ensures
        project::part_outside(refs, parts, n) is None,
    decreases n,
{
    if n > 0 {
        lemma_no_part_outside(refs, parts, (n - 1) as nat);
        assert(refs[n - 1].origin is Part);
    }
}

/// Rows are refused exactly where one of them is staged, or lies outside the parts.
pub proof fn lemma_projection_refuses(parts: Seq<PartView>, refs: Seq<RowRefView>)
    ensures
        project::projection_fault(parts, refs) is None <==> forall|i: int|
            0 <= i < refs.len() ==> {
                &&& (#[trigger] refs[i]).origin is Part
                &&& refs[i].origin->part < parts.len()
                &&& refs[i].origin->row < parts[refs[i].origin->part as int].rows.len()
            },
{
    if project::projection_fault(parts, refs) is None {
        assert forall|i: int| 0 <= i < refs.len() implies {
            &&& (#[trigger] refs[i]).origin is Part
            &&& refs[i].origin->part < parts.len()
            &&& refs[i].origin->row < parts[refs[i].origin->part as int].rows.len()
        } by {
            project::lemma_rows_inside(parts, refs, i);
        }
    }
    if forall|i: int|
        0 <= i < refs.len() ==> {
            &&& (#[trigger] refs[i]).origin is Part
            &&& refs[i].origin->part < parts.len()
            &&& refs[i].origin->row < parts[refs[i].origin->part as int].rows.len()
        } {
        assert forall|i: int| 0 <= i < refs.len() implies (#[trigger] refs[i]).origin
            != RowOrigin::Memtable by {
            assert(refs[i].origin is Part);
        }
        lemma_no_row_outside(parts, refs, parts.len());
        lemma_no_part_outside(refs, parts.len(), refs.len());
    }
}

proof fn lemma_one_inside(parts: Seq<PartView>, refs: Seq<RowRefView>, p: int, row: int)
    requires
        refs.len() == 1,
        0 <= p < parts.len() <= usize::MAX,
        0 <= row < parts[p].rows.len() <= usize::MAX,
        refs[0].origin == (RowOrigin::Part { part: p as usize, row: row as usize }),
    ensures
        project::projection_fault(parts, refs) is None,
{
    lemma_projection_refuses(parts, refs);
}

/// Whether a row's record meets a condition that can be told from its names.
pub open spec fn row_meets(p: PartView, row: int, c: PartPredicate) -> bool {
    let r = p.rows[row].record;
    match c {
        PartPredicate::AttrExists { name, present } => r is Some && present == exists|k: int|
            0 <= k < r->0.attrs.len() && (#[trigger] r->0.attrs[k]).0 == name@,
        PartPredicate::ContentExists { name, present } => r is Some && present == exists|k: int|
            0 <= k < r->0.contents.len() && (#[trigger] r->0.contents[k]).name == name@,
        _ => true,
    }
}

/// A part that a condition on names rules out holds no row that meets it; a part that holds one is
/// never ruled out; and one that nothing speaks against is kept.
pub proof fn lemma_ruled_out(p: PartView, c: PartPredicate, row: int)
    requires
        0 <= row < p.rows.len(),
    ensures
        c is Attr ==> scan::may_match(p, c) == c->may_match,
        c is Id ==> scan::may_match(p, c),
        (c is AttrExists || c is ContentExists) && row_meets(p, row, c) ==> scan::may_match(p, c),
        c matches PartPredicate::AttrExists { name, present } ==> (!scan::may_match(p, c) <==> (
        present && forall|i: int| 0 <= i < p.rows.len() ==> !row_meets(p, i, c))),
        c matches PartPredicate::ContentExists { name, present } ==> (!scan::may_match(p, c) <==> (
        present && forall|i: int| 0 <= i < p.rows.len() ==> !row_meets(p, i, c))),
{
    match c {
        PartPredicate::AttrExists { name, present } => {
            assert forall|i: int|
                0 <= i < p.rows.len() && present && #[trigger] row_meets(p, i, c) implies
                scan::has_attr(p, name@) by {
                let attrs = p.rows[i].record->0.attrs;
                let k = choose|k: int| 0 <= k < attrs.len() && (#[trigger] attrs[k]).0 == name@;
                assert(p.rows[i].record->0.attrs[k].0 == name@);
            }
            if scan::has_attr(p, name@) && present {
                let (i, k) = choose|i: int, k: int|
                    0 <= i < p.rows.len() && p.rows[i].record is Some && 0 <= k
                        < p.rows[i].record->0.attrs.len() && (
                    #[trigger] p.rows[i].record->0.attrs[k]).0 == name@;
                assert(row_meets(p, i, c));
            }
        },
        PartPredicate::ContentExists { name, present } => {
            assert forall|i: int|
                0 <= i < p.rows.len() && present && #[trigger] row_meets(p, i, c) implies
                scan::has_content(p, name@) by {
                let all = p.rows[i].record->0.contents;
                let k = choose|k: int| 0 <= k < all.len() && (#[trigger] all[k]).name == name@;
                assert(p.rows[i].record->0.contents[k].name == name@);
            }
            if scan::has_content(p, name@) && present {
                let (i, k) = choose|i: int, k: int|
                    0 <= i < p.rows.len() && p.rows[i].record is Some && 0 <= k
                        < p.rows[i].record->0.contents.len() && (
                    #[trigger] p.rows[i].record->0.contents[k]).name == name@;
                assert(row_meets(p, i, c));
            }
        },
        _ => {},
    }
}

proof fn lemma_in_bounds(
    p: PartView,
    from: Option<Seq<char>>,
    to: Option<Seq<char>>,
    n: nat,
)
    ensures
        scan::in_bounds(p.rows, from, to, n) == sum_laws::count(
            n,
            |i: int| part::in_range(p.rows[i].id, from, to),
        ),
        scan::in_bounds(p.rows, from, to, n) > 0 <==> exists|i: int|
            0 <= i < n && part::in_range((#[trigger] p.rows[i]).id, from, to),
    decreases n,
{
    let meets = |i: int| part::in_range(p.rows[i].id, from, to);
    sum_laws::lemma_count((n - 1) as nat, meets);
    if n > 0 {
        lemma_in_bounds(p, from, to, (n - 1) as nat);
        assert(meets(n - 1) == part::in_range(p.rows[n - 1].id, from, to));
    } else {
        sum_laws::lemma_count(0, meets);
    }
}

/// What a scan is said to reach: every row of the range, and every part that holds one.
pub proof fn lemma_scope(
    parts: Seq<PartView>,
    from: Option<Seq<char>>,
    to: Option<Seq<char>>,
    n: nat,
)
    ensures
        scan::rows_in_bounds(parts, from, to, n) == sum_laws::sum(
            n,
            |p: int|
                sum_laws::count(
                    parts[p].rows.len(),
                    |i: int| part::in_range(parts[p].rows[i].id, from, to),
                ),
        ),
        scan::parts_in_bounds(parts, from, to, n) == sum_laws::count(
            n,
            |p: int|
                exists|i: int|
                    0 <= i < parts[p].rows.len() && part::in_range(
                        (#[trigger] parts[p].rows[i]).id,
                        from,
                        to,
                    ),
        ),
    decreases n,
{
    let rows = |p: int|
        sum_laws::count(
            parts[p].rows.len(),
            |i: int| part::in_range(parts[p].rows[i].id, from, to),
        );
    let some = |p: int|
        exists|i: int|
            0 <= i < parts[p].rows.len() && part::in_range(
                (#[trigger] parts[p].rows[i]).id,
                from,
                to,
            );
    if n > 0 {
        let p = n - 1;
        lemma_scope(parts, from, to, p as nat);
        lemma_in_bounds(parts[p], from, to, parts[p].rows.len());
        sum_laws::lemma_sum(p as nat, rows);
        sum_laws::lemma_count(p as nat, some);
        assert(rows(p) == scan::in_bounds(parts[p].rows, from, to, parts[p].rows.len()));
        assert(some(p) <==> scan::in_bounds(parts[p].rows, from, to, parts[p].rows.len()) > 0);
    } else {
        sum_laws::lemma_sum(0, rows);
        sum_laws::lemma_count(0, some);
    }
}

/// A content of the record that parts show for an id, projected from the row that shows it, reads as
/// the value that reading by id and name gives.
pub proof fn lemma_projected_value(
    parts: Seq<PartView>,
    f: FoldView,
    id: Seq<char>,
    k: int,
)
    requires
        part::parts_sound(parts),
        parts.len() <= usize::MAX,
        read::rows_total(parts, 0) <= usize::MAX,
        read::current(parts, id) is Some,
        types::names_unique(read::current(parts, id)->0.contents),
        0 <= k < read::current(parts, id)->0.contents.len(),
    ensures
        ({
            let (p, row) = read::located(parts, id)->0;
            let c = read::current(parts, id)->0.contents[k];
            let r = RowRefView {
                id,
                origin: RowOrigin::Part { part: p as usize, row: row as usize },
            };
            match project::projected_value(parts, f, r, c) {
                Ok(b) => read::value_of(parts, f, id, c.name) == Ok::<
                    Option<Seq<u8>>,
                    ReadError,
                >(Some(b)),
                Err(e) => e matches ProjectError::Read { error } && read::value_of(
                    parts,
                    f,
                    id,
                    c.name,
                ) == Err::<Option<Seq<u8>>, ReadError>(error),
            }
        }),
{
    read::lemma_newest(parts, id);
    let (p, row) = read::located(parts, id)->0;
    lemma_row_bound(parts, p as int, 0);
    audit_laws::lemma_named(read::current(parts, id)->0.contents, k);
}

/// A range is refused exactly where its end sorts before its start; equal bounds are an empty range.
pub proof fn lemma_inverted(from: Option<Seq<char>>, to: Option<Seq<char>>, id: Seq<char>)
    ensures
        read_store::inverted(from, to) <==> from is Some && to is Some && bytes::name_lt(
            to->0,
            from->0,
        ),
        read_store::inverted(from, to) ==> !part::in_range(id, from, to),
{
    if read_store::inverted(from, to) && part::in_range(id, from, to) {
        bytes::lemma_name_order(id, to->0, from->0);
    }
}

/// The staged entries of a range are the staged rows in it, in order, each with whether it is a record.
pub proof fn lemma_staged_entries(
    mem: Seq<RowView>,
    from: Option<Seq<char>>,
    to: Option<Seq<char>>,
    n: nat,
)
    requires
        n <= mem.len(),
    ensures
        engine_read::entries(mem, from, to, n) == mem.take(n as int).filter(
            |r: RowView| part::in_range(r.id, from, to),
        ).map_values(|r: RowView| (r.id, r.record is Some)),
    decreases n,
{
    reveal(Seq::filter);
    let keep = |r: RowView| part::in_range(r.id, from, to);
    let entry = |r: RowView| (r.id, r.record is Some);
    let now = mem.take(n as int);
    if n > 0 {
        let m = (n - 1) as nat;
        lemma_staged_entries(mem, from, to, m);
        assert(now.drop_last() =~= mem.take(m as int));
        assert(now.last() == mem[n - 1]);
        let before = mem.take(m as int).filter(keep);
        assert(before.push(mem[n - 1]).map_values(entry) =~= before.map_values(entry).push(
            entry(mem[n - 1]),
        ));
    } else {
        assert(now =~= Seq::<RowView>::empty());
        assert(Seq::<RowView>::empty().map_values(entry) =~= Seq::<(Seq<char>, bool)>::empty());
    }
}

proof fn lemma_committed_refs(refs: Seq<RowRefView>, n: nat)
    requires
        n <= refs.len(),
    ensures
        engine_read::committed_refs(refs, n) == refs.take(n as int).filter(
            |r: RowRefView| r.origin is Part,
        ),
    decreases n,
{
    reveal(Seq::filter);
    let now = refs.take(n as int);
    if n > 0 {
        lemma_committed_refs(refs, (n - 1) as nat);
        assert(now.drop_last() =~= refs.take(n - 1));
        assert(now.last() == refs[n - 1]);
    } else {
        assert(now =~= Seq::<RowRefView>::empty());
    }
}

proof fn lemma_not_live(mem: Seq<RowView>, refs: Seq<RowRefView>, n: nat)
    requires
        n <= refs.len(),
    ensures
        engine_read::not_live(mem, refs, n) is None <==> forall|i: int|
            0 <= i < n && (#[trigger] refs[i]).origin is Memtable ==> engine_read::staged_record(
                mem,
                refs[i].id,
            ) is Some,
    decreases n,
{
    if n > 0 {
        lemma_not_live(mem, refs, (n - 1) as nat);
    }
}

/// A writer's rows are refused exactly where one that is said to be staged is no record there, or one
/// that is said to be committed lies outside the parts.
pub proof fn lemma_store_projection_refuses(s: StoreView, refs: Seq<RowRefView>)
    ensures
        engine_read::store_projection_fault(s, refs) is None <==> forall|i: int|
            0 <= i < refs.len() ==> match (#[trigger] refs[i]).origin {
                RowOrigin::Memtable => engine_read::staged_record(s.mem, refs[i].id) is Some,
                RowOrigin::Part { part, row } => part < s.parts.len() && row
                    < s.parts[part as int].rows.len(),
            },
{
    lemma_not_live(s.mem, refs, refs.len());
    lemma_committed_refs(refs, refs.len());
    assert(refs.take(refs.len() as int) =~= refs);
    let keep = |r: RowRefView| r.origin is Part;
    let held = refs.filter(keep);
    lemma_projection_refuses(s.parts, held);
    sum_laws::lemma_filter_counts(refs, keep);
    if engine_read::store_projection_fault(s, refs) is None {
        assert forall|i: int| 0 <= i < refs.len() implies match (#[trigger] refs[i]).origin {
            RowOrigin::Memtable => engine_read::staged_record(s.mem, refs[i].id) is Some,
            RowOrigin::Part { part, row } => part < s.parts.len() && row
                < s.parts[part as int].rows.len(),
        } by {
            if refs[i].origin is Part {
                assert(refs.contains(refs[i]));
                assert(held.contains(refs[i]));
                let k = choose|k: int| 0 <= k < held.len() && held[k] == refs[i];
                assert(held[k].origin is Part);
            }
        }
    }
    if forall|i: int|
        0 <= i < refs.len() ==> match (#[trigger] refs[i]).origin {
            RowOrigin::Memtable => engine_read::staged_record(s.mem, refs[i].id) is Some,
            RowOrigin::Part { part, row } => part < s.parts.len() && row
                < s.parts[part as int].rows.len(),
        } {
        assert forall|k: int| 0 <= k < held.len() implies {
            &&& (#[trigger] held[k]).origin is Part
            &&& held[k].origin->part < s.parts.len()
            &&& held[k].origin->row < s.parts[held[k].origin->part as int].rows.len()
        } by {
            assert(held.contains(held[k]));
            assert(refs.contains(held[k]) && keep(held[k]));
            let i = choose|i: int| 0 <= i < refs.len() && refs[i] == held[k];
            assert(refs[i].origin is Part);
        }
    }
}

} // verus!
