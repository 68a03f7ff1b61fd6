//! What publication promises: a flush or a merge changes where rows live, and nothing that a read
//! returns.

use crate::bytes;
use crate::fold;
use crate::fold::{FoldError, FoldView, Loc};
use crate::hash;
use crate::memtable;
use crate::part;
use crate::part::{PartView, ReadError, RowView};
use crate::store::admission;
use crate::store::admission::SpansView;
use crate::store::carve;
use crate::store::engine;
use crate::store::engine::StoreView;
use crate::store::engine_laws;
use crate::store::engine_read;
use crate::store::manifest::ManifestView;
use crate::store::publish;
use crate::store::publish::{EncodedPart, PlanView, PublishError};
use crate::store::read;
use crate::store::wal::Wal;
use crate::store::writer;
use crate::store::writer::WriterView;
use crate::types::{AttrView, ContentView, OpView};
use vstd::prelude::*;

verus! {

// ---------------------------------------------------------------------------------------------
// Newest-wins over concatenated parts.
// ---------------------------------------------------------------------------------------------
/// The newest row of an id, itself.
pub open spec fn newest_row(parts: Seq<PartView>, id: Seq<char>) -> Option<RowView> {
    match read::newest(parts, id) {
        Some((p, row)) => Some(parts[p as int].rows[row as int]),
        None => None,
    }
}

/// Newer parts decide where they hold the id; otherwise the older ones do.
pub proof fn lemma_newest_append(a: Seq<PartView>, b: Seq<PartView>, id: Seq<char>)
    ensures
        read::newest(a + b, id) == match read::newest(b, id) {
            Some((p, row)) => Some(((a.len() + p) as nat, row)),
            None => read::newest(a, id),
        },
    decreases b.len(),
{
    read::lemma_newest(b, id);
    read::lemma_newest(a, id);
    if b.len() == 0 {
        assert(a + b =~= a);
    } else {
        let all = a + b;
        assert(all.last() == b.last());
        assert(all.drop_last() =~= a + b.drop_last());
        lemma_newest_append(a, b.drop_last(), id);
    }
}

proof fn lemma_newest_row_append(a: Seq<PartView>, b: Seq<PartView>, id: Seq<char>)
    ensures
        newest_row(a + b, id) == match newest_row(b, id) {
            Some(row) => Some(row),
            None => newest_row(a, id),
        },
{
    lemma_newest_append(a, b, id);
    read::lemma_newest(a, id);
    read::lemma_newest(b, id);
}

/// One part's newest row is its row.
proof fn lemma_newest_one(p: PartView, id: Seq<char>)
    ensures
        newest_row(seq![p], id) == memtable::row_at(p.rows, id),
{
    let s = seq![p];
    assert(s.last() == p);
    assert(s.drop_last() =~= Seq::<PartView>::empty());
    read::lemma_newest(s, id);
}

// ---------------------------------------------------------------------------------------------
// A flush.
// ---------------------------------------------------------------------------------------------
/// Every entry is where the writer locates its piece.
pub open spec fn dict_located(parts: Seq<PartView>, w: WriterView, d: Seq<(Seq<u8>, Loc)>) -> bool {
    forall|h: Seq<u8>|
        (#[trigger] part::find_loc(d, h)) is Some ==> writer::located_piece(
            parts,
            w.fold,
            w.window,
            h,
        ) == Ok::<Option<Loc>, FoldError>(part::find_loc(d, h))
}

/// A dictionary that answers what another does, and more.
spec fn dict_grows(d: Seq<(Seq<u8>, Loc)>, e: Seq<(Seq<u8>, Loc)>) -> bool {
    forall|h: Seq<u8>|
        part::find_loc(d, h) is Some ==> #[trigger] part::find_loc(e, h) == part::find_loc(d, h)
}

/// A dictionary that holds every piece of a program.
pub open spec fn dict_holds(d: Seq<(Seq<u8>, Loc)>, ops: Seq<OpView>, n: nat) -> bool {
    forall|i: int|
        0 <= i < n ==> match #[trigger] ops[i] {
            OpView::Piece { hash, .. } => part::find_loc(d, hash) is Some,
            OpView::Lit(_) => true,
        }
}

proof fn lemma_dict_ops(
    parts: Seq<PartView>,
    w: WriterView,
    d: Seq<(Seq<u8>, Loc)>,
    ops: Seq<OpView>,
    n: nat,
)
    requires
        dict_located(parts, w, d),
        n <= ops.len(),
        publish::dict_ops(parts, w, d, ops, n) is Ok,
    ensures
        dict_located(parts, w, publish::dict_ops(parts, w, d, ops, n)->Ok_0),
        dict_grows(d, publish::dict_ops(parts, w, d, ops, n)->Ok_0),
        dict_holds(publish::dict_ops(parts, w, d, ops, n)->Ok_0, ops, n),
    decreases n,
{
    if n > 0 {
        lemma_dict_ops(parts, w, d, ops, (n - 1) as nat);
        let before = publish::dict_ops(parts, w, d, ops, (n - 1) as nat)->Ok_0;
        let after = publish::dict_ops(parts, w, d, ops, n)->Ok_0;
        if let OpView::Piece { hash, len } = ops[n - 1] {
            if part::find_loc(before, hash) is None {
                let loc = (writer::located_piece(parts, w.fold, w.window, hash)->Ok_0)->0;
                assert forall|h: Seq<u8>| (#[trigger] part::find_loc(
                    after,
                    h,
                )) is Some implies writer::located_piece(parts, w.fold, w.window, h) == Ok::<
                    Option<Loc>,
                    FoldError,
                >(part::find_loc(after, h)) by {
                    writer::lemma_find_pushed(before, hash, loc, h);
                    assert(part::find_loc(before, h) is Some ==> part::find_loc(before, h)
                        == part::find_loc(after, h));
                }
                assert forall|h: Seq<u8>| part::find_loc(
                    before,
                    h,
                ) is Some implies #[trigger] part::find_loc(after, h) == part::find_loc(
                    before,
                    h,
                ) by {
                    writer::lemma_find_pushed(before, hash, loc, h);
                }
                writer::lemma_find_pushed(before, hash, loc, hash);
            }
        }
        assert forall|i: int| 0 <= i < n implies match #[trigger] ops[i] {
            OpView::Piece { hash, .. } => part::find_loc(after, hash) is Some,
            OpView::Lit(_) => true,
        } by {
            if i < n - 1 {
                if let OpView::Piece { hash, len } = ops[i] {
                    assert(part::find_loc(before, hash) is Some);
                    assert(part::find_loc(after, hash) == part::find_loc(before, hash));
                }
            }
        }
    }
}

proof fn lemma_dict_contents(
    parts: Seq<PartView>,
    w: WriterView,
    d: Seq<(Seq<u8>, Loc)>,
    contents: Seq<ContentView>,
    n: nat,
)
    requires
        dict_located(parts, w, d),
        n <= contents.len(),
        publish::dict_contents(parts, w, d, contents, n) is Ok,
    ensures
        dict_located(parts, w, publish::dict_contents(parts, w, d, contents, n)->Ok_0),
        dict_grows(d, publish::dict_contents(parts, w, d, contents, n)->Ok_0),
        forall|k: int|
            0 <= k < n ==> dict_holds(
                publish::dict_contents(parts, w, d, contents, n)->Ok_0,
                (#[trigger] contents[k]).ops,
                contents[k].ops.len(),
            ),
    decreases n,
{
    if n > 0 {
        lemma_dict_contents(parts, w, d, contents, (n - 1) as nat);
        let before = publish::dict_contents(parts, w, d, contents, (n - 1) as nat)->Ok_0;
        let ops = contents[n - 1].ops;
        lemma_dict_ops(parts, w, before, ops, ops.len());
        let after = publish::dict_ops(parts, w, before, ops, ops.len())->Ok_0;
        assert forall|k: int| 0 <= k < n implies dict_holds(
            after,
            (#[trigger] contents[k]).ops,
            contents[k].ops.len(),
        ) by {
            if k < n - 1 {
                lemma_holds_grows(before, after, contents[k].ops);
            }
        }
    }
}

proof fn lemma_holds_grows(d: Seq<(Seq<u8>, Loc)>, e: Seq<(Seq<u8>, Loc)>, ops: Seq<OpView>)
    requires
        dict_grows(d, e),
        dict_holds(d, ops, ops.len()),
    ensures
        dict_holds(e, ops, ops.len()),
{
    assert forall|i: int| 0 <= i < ops.len() implies match #[trigger] ops[i] {
        OpView::Piece { hash, .. } => part::find_loc(e, hash) is Some,
        OpView::Lit(_) => true,
    } by {
        if let OpView::Piece { hash, len } = ops[i] {
            assert(part::find_loc(d, hash) is Some);
            assert(part::find_loc(e, hash) == part::find_loc(d, hash));
        }
    }
}

/// What a dictionary of rows has: every piece of a row's program, where it is located.
pub proof fn lemma_dict_rows(
    parts: Seq<PartView>,
    w: WriterView,
    rows: Seq<RowView>,
    n: nat,
    i: int,
    k: int,
)
    requires
        n <= rows.len(),
        publish::dict_rows(parts, w, rows, n) is Ok,
        0 <= i < n ==> rows[i].record is Some && 0 <= k < rows[i].record->0.contents.len(),
    ensures
        dict_located(parts, w, publish::dict_rows(parts, w, rows, n)->Ok_0),
        0 <= i < n ==> dict_holds(
            publish::dict_rows(parts, w, rows, n)->Ok_0,
            rows[i].record->0.contents[k].ops,
            rows[i].record->0.contents[k].ops.len(),
        ),
    decreases n,
{
    if n > 0 {
        lemma_dict_rows(parts, w, rows, (n - 1) as nat, i, k);
        let before = publish::dict_rows(parts, w, rows, (n - 1) as nat)->Ok_0;
        let after = publish::dict_rows(parts, w, rows, n)->Ok_0;
        if let Some(r) = rows[n - 1].record {
            lemma_dict_contents(parts, w, before, r.contents, r.contents.len());
            if 0 <= i < n - 1 {
                lemma_holds_grows(before, after, rows[i].record->0.contents[k].ops);
            }
            if i == n - 1 {
                assert(dict_holds(after, r.contents[k].ops, r.contents[k].ops.len()));
            }
        }
    }
}

/// Every piece of a program has the length that its program gives it.
pub open spec fn sized(parts: Seq<PartView>, w: WriterView, ops: Seq<OpView>) -> bool {
    forall|i: int|
        0 <= i < ops.len() ==> match #[trigger] ops[i] {
            OpView::Piece { hash, len } => match writer::located_piece(
                parts,
                w.fold,
                w.window,
                hash,
            ) {
                Ok(Some(loc)) => loc.raw == len,
                _ => true,
            },
            OpView::Lit(_) => true,
        }
}

proof fn lemma_flushed_program(
    parts: Seq<PartView>,
    w: WriterView,
    d: Seq<(Seq<u8>, Loc)>,
    ops: Seq<OpView>,
)
    requires
        dict_located(parts, w, d),
        dict_holds(d, ops, ops.len()),
        sized(parts, w, ops),
        engine_read::staged_program(parts, w, ops) is Ok,
    ensures
        part::program_bytes(d, w.fold, ops) == engine_read::staged_program(parts, w, ops),
    decreases ops.len(),
{
    if ops.len() > 0 {
        let front = ops.drop_last();
        assert(dict_holds(d, front, front.len())) by {
            assert forall|i: int| 0 <= i < front.len() implies match #[trigger] front[i] {
                OpView::Piece { hash, .. } => part::find_loc(d, hash) is Some,
                OpView::Lit(_) => true,
            } by {
                assert(front[i] == ops[i]);
            }
        }
        assert(sized(parts, w, front)) by {
            assert forall|i: int| 0 <= i < front.len() implies match #[trigger] front[i] {
                OpView::Piece { hash, len } => match writer::located_piece(
                    parts,
                    w.fold,
                    w.window,
                    hash,
                ) {
                    Ok(Some(loc)) => loc.raw == len,
                    _ => true,
                },
                OpView::Lit(_) => true,
            } by {
                assert(front[i] == ops[i]);
            }
        }
        lemma_flushed_program(parts, w, d, front);
        let last = ops[ops.len() - 1];
        assert(ops.last() == last);
        if let OpView::Piece { hash, len } = last {
            assert(part::find_loc(d, hash) is Some);
        }
    }
}

proof fn lemma_named_index(contents: Seq<ContentView>, name: Seq<char>)
    requires
        part::content_named(contents, name) is Some,
    ensures
        exists|k: int|
            0 <= k < contents.len() && #[trigger] contents[k] == part::content_named(
                contents,
                name,
            )->0,
    decreases contents.len(),
{
    if contents[0].name != name {
        lemma_named_index(contents.drop_first(), name);
        let rest = contents.drop_first();
        let k = choose|k: int|
            0 <= k < rest.len() && #[trigger] rest[k] == part::content_named(rest, name)->0;
        assert(contents[k + 1] == rest[k]);
    } else {
        assert(contents[0] == part::content_named(contents, name)->0);
    }
}

/// A flush changes nothing that is shown.
pub proof fn lemma_flush_visible(
    s: StoreView,
    p: PlanView,
    e: EncodedPart,
    m: ManifestView,
    wal: Wal,
    id: Seq<char>,
)
    requires
        engine::store_ok(s),
        publish::flush_plan(s) == Ok::<PlanView, PublishError>(p),
    ensures
        engine_read::visible(publish::published_store(s, p, e, m, wal), id)
            == engine_read::visible(s, id),
{
    let t = publish::published_store(s, p, e, m, wal);
    let x = publish::plan_part(p, e.sections, e.section_bytes);
    assert(t.parts =~= s.parts + seq![x]);
    lemma_newest_row_append(s.parts, seq![x], id);
    lemma_newest_one(x, id);
    assert(part::row_of(t.mem, id) is None);
}

/// A flush changes no value that could be read: the committed part gives back what the memtable
/// gave.
pub proof fn lemma_flush_value(
    s: StoreView,
    p: PlanView,
    e: EncodedPart,
    m: ManifestView,
    wal: Wal,
    id: Seq<char>,
    name: Seq<char>,
)
    requires
        engine::store_ok(s),
        publish::flush_plan(s) == Ok::<PlanView, PublishError>(p),
        engine_read::value(s, id, name) is Ok,
        match engine_read::staged_record(s.mem, id) {
            Some(r) => match part::content_named(r.contents, name) {
                Some(c) => sized(s.parts, s.writer, c.ops),
                None => true,
            },
            None => true,
        },
    ensures
        engine_read::value(publish::published_store(s, p, e, m, wal), id, name)
            == engine_read::value(s, id, name),
{
    let t = publish::published_store(s, p, e, m, wal);
    let x = publish::plan_part(p, e.sections, e.section_bytes);
    assert(t.parts =~= s.parts + seq![x]);
    assert(part::row_of(t.mem, id) is None);
    lemma_newest_append(s.parts, seq![x], id);
    lemma_newest_one(x, id);
    read::lemma_newest(s.parts, id);
    read::lemma_newest(seq![x], id);
    let one = seq![x];
    match part::row_of(s.mem, id) {
        None => {
            assert(read::newest(one, id) is None) by {
                assert(one.last() == x);
                assert(one.drop_last() =~= Seq::<PartView>::empty());
            }
        },
        Some(i) => {
            assert(read::newest(one, id) == Some((0nat, i))) by {
                assert(one.last() == x);
            }
            assert(t.parts[s.parts.len() as int] == x);
            if let Some(r) = s.mem[i as int].record {
                if let Some(c) = part::content_named(r.contents, name) {
                    lemma_named_index(r.contents, name);
                    let k = choose|k: int|
                        0 <= k < r.contents.len() && #[trigger] r.contents[k]
                            == part::content_named(r.contents, name)->0;
                    lemma_dict_rows(s.parts, s.writer, s.mem, s.mem.len(), i as int, k);
                    lemma_flushed_program(s.parts, s.writer, p.pieces, c.ops);
                }
            }
        },
    }
}

/// A read gives back what was put, also from the part that a flush made of it.
pub proof fn lemma_put_flush_reads(
    s: StoreView,
    t: StoreView,
    id: Seq<char>,
    contents: Seq<SpansView>,
    attrs: Seq<(Seq<char>, AttrView)>,
    k: int,
    p: PlanView,
    e: EncodedPart,
    m: ManifestView,
    wal: Wal,
)
    requires
        engine::store_ok(s),
        engine::store_ok(t),
        engine::put_outcome(s, t, id, contents, attrs, Ok(())),
        0 <= k < contents.len(),
        engine_laws::genuine(t.writer.fold, contents[k].spans),
        publish::flush_plan(t) == Ok::<PlanView, PublishError>(p),
    ensures
        ({
            let u = publish::published_store(t, p, e, m, wal);
            read::value_of(u.parts, u.writer.fold, id, contents[k].name) == Ok::<
                Option<Seq<u8>>,
                ReadError,
            >(Some(admission::spans_bytes(contents[k].spans)))
        }),
{
    engine_laws::lemma_put_reads(s, t, id, contents, attrs, k);
    engine_laws::lemma_put_visible(s, t, id, contents, attrs, id);
    let r = engine_read::visible(t, id)->0;
    engine_laws::lemma_put_staged(s, t, id, contents, attrs);
    let all = carve::carved_all(contents);
    engine_laws::lemma_canonical_named(all, r.contents, k);
    let spans = contents[k].spans;
    let ops = carve::span_ops(spans);
    assert forall|i: int| 0 <= i < ops.len() implies match #[trigger] ops[i] {
        OpView::Piece { hash, len } => match writer::located_piece(
            t.parts,
            t.writer.fold,
            t.writer.window,
            hash,
        ) {
            Ok(Some(loc)) => loc.raw == len,
            _ => true,
        },
        OpView::Lit(_) => true,
    } by {
        if admission::is_piece(spans[i]) {
            let b = admission::span_bytes(spans[i]);
            let h = hash::blake3_digest(b);
            if let Ok(Some(loc)) = writer::located_piece(
                t.parts,
                t.writer.fold,
                t.writer.window,
                h,
            ) {
                writer::lemma_located_reads(t.parts, t.writer, h);
                assert(fold::fold_read(t.writer.fold, loc, h) is Ok);
                assert(fold::fold_read(t.writer.fold, loc, h)->Ok_0 == b);
                assert(b.len() == loc.raw);
            }
        }
    }
    assert(sized(t.parts, t.writer, all[k].ops));
    lemma_flush_value(t, p, e, m, wal, id, contents[k].name);
    let u = publish::published_store(t, p, e, m, wal);
    assert(part::row_of(u.mem, id) is None);
}

/// Content is written once. Where a flush published a record, folding one of its pieces again
/// finds it stored and leaves the fold as it is.
pub proof fn lemma_flush_stored_once(
    s: StoreView,
    p: PlanView,
    e: EncodedPart,
    m: ManifestView,
    wal: Wal,
    i: int,
    k: int,
    j: int,
    b: Seq<u8>,
)
    requires
        engine::store_ok(s),
        publish::flush_plan(s) == Ok::<PlanView, PublishError>(p),
        0 <= i < s.mem.len(),
        s.mem[i].record is Some,
        0 <= k < s.mem[i].record->0.contents.len(),
        0 <= j < s.mem[i].record->0.contents[k].ops.len(),
        s.mem[i].record->0.contents[k].ops[j] matches OpView::Piece { hash, len: _ } && hash
            == hash::blake3_digest(b),
    ensures
        ({
            let u = publish::published_store(s, p, e, m, wal);
            writer::folded(u.parts, u.writer, b) matches Ok((after, _, deduped)) && deduped
                && after.fold == s.writer.fold
        }),
{
    let u = publish::published_store(s, p, e, m, wal);
    let x = publish::plan_part(p, e.sections, e.section_bytes);
    let h = hash::blake3_digest(b);
    let f = s.writer.fold;
    assert(u.parts =~= s.parts + seq![x]);
    lemma_dict_rows(s.parts, s.writer, s.mem, s.mem.len(), i, k);
    let ops = s.mem[i].record->0.contents[k].ops;
    assert(dict_holds(p.pieces, ops, ops.len()));
    assert(part::find_loc(p.pieces, h) is Some) by {
        let op = ops[j];
    }
    let loc = part::find_loc(p.pieces, h)->0;
    assert(writer::located_piece(s.parts, f, s.writer.window, h) == Ok::<Option<Loc>, FoldError>(
        Some(loc),
    ));
    writer::lemma_located_reads(s.parts, s.writer, h);
    assert(fold::fold_read(f, loc, h) is Ok);
    assert(u.parts.last() == x);
    assert(part::find_loc(u.writer.window, h) is None);
    assert(writer::located_in(u.parts, f, h, u.parts.len()) == Ok::<Option<Loc>, FoldError>(
        Some(loc),
    ));
}

// ---------------------------------------------------------------------------------------------
// A merge.
// ---------------------------------------------------------------------------------------------
proof fn lemma_overlaid_row(rows: Seq<RowView>, over: Seq<RowView>, n: nat, id: Seq<char>)
    requires
        part::ids_ascending(rows),
        part::ids_agree(rows),
        part::ids_ascending(over),
        part::ids_agree(over),
        n <= over.len(),
    ensures
        memtable::row_at(publish::overlaid(rows, over, n), id) == match memtable::row_at(
            over.take(n as int),
            id,
        ) {
            Some(row) => Some(row),
            None => memtable::row_at(rows, id),
        },
    decreases n,
{
    let front = over.take(n as int);
    if n == 0 {
        assert(part::row_of(front, id) is None);
    } else {
        lemma_overlaid_row(rows, over, (n - 1) as nat, id);
        publish::lemma_overlaid(rows, over, (n - 1) as nat);
        let before = publish::overlaid(rows, over, (n - 1) as nat);
        memtable::lemma_put_lookup(before, over[n - 1], id);
        let shorter = over.take(n - 1);
        assert(part::ids_ascending(front)) by {
            assert forall|i: int, j: int| 0 <= i < j < front.len() implies bytes::name_lt(
                #[trigger] front[i].id,
                #[trigger] front[j].id,
            ) by {
                assert(bytes::name_lt(over[i].id, over[j].id));
            }
        }
        assert(part::ids_ascending(shorter)) by {
            assert forall|i: int, j: int| 0 <= i < j < shorter.len() implies bytes::name_lt(
                #[trigger] shorter[i].id,
                #[trigger] shorter[j].id,
            ) by {
                assert(bytes::name_lt(over[i].id, over[j].id));
            }
        }
        if over[n - 1].id == id {
            part::lemma_row_of(front, id, n - 1);
        } else {
            match part::row_of(shorter, id) {
                Some(i) => {
                    assert(shorter[i as int].id == id);
                    assert(front[i as int] == shorter[i as int]);
                    part::lemma_row_of(front, id, i as int);
                },
                None => {
                    if part::row_of(front, id) is Some {
                        let i = part::row_of(front, id)->0 as int;
                        assert(front[i].id == id);
                        assert(i < n - 1);
                        assert(shorter[i].id == id);
                    }
                },
            }
        }
    }
}

/// A merged run holds, for each id, the newest row of the run.
pub proof fn lemma_merged_row(parts: Seq<PartView>, lo: int, hi: int, id: Seq<char>)
    requires
        part::parts_sound(parts),
        0 <= lo <= hi <= parts.len(),
    ensures
        memtable::row_at(publish::merged_rows(parts, lo, hi), id) == newest_row(
            parts.subrange(lo, hi),
            id,
        ),
    decreases hi - lo,
{
    let run = parts.subrange(lo, hi);
    if lo == hi {
        assert(run =~= Seq::<PartView>::empty());
        assert(part::row_of(publish::merged_rows(parts, lo, hi), id) is None);
    } else {
        lemma_merged_row(parts, lo, hi - 1, id);
        publish::lemma_merged_ordered(parts, lo, hi - 1);
        let over = parts[hi - 1].rows;
        assert(part::part_sound(parts[hi - 1]));
        lemma_overlaid_row(publish::merged_rows(parts, lo, hi - 1), over, over.len(), id);
        assert(over.take(over.len() as int) =~= over);
        let older = parts.subrange(lo, hi - 1);
        assert(run =~= older + seq![parts[hi - 1]]);
        lemma_newest_row_append(older, seq![parts[hi - 1]], id);
        lemma_newest_one(parts[hi - 1], id);
    }
}

proof fn lemma_records_row(rows: Seq<RowView>, id: Seq<char>)
    requires
        part::ids_ascending(rows),
        part::ids_agree(rows),
    ensures
        memtable::row_at(publish::records_only(rows, rows.len()), id) == match memtable::row_at(
            rows,
            id,
        ) {
            Some(row) => if row.record is Some {
                Some(row)
            } else {
                None
            },
            None => None,
        },
{
    let out = publish::records_only(rows, rows.len());
    publish::lemma_records_only(rows, rows.len());
    match part::row_of(rows, id) {
        Some(i) => {
            if rows[i as int].record is Some {
                lemma_record_kept(rows, rows.len(), i as int);
                let k = choose|k: int| 0 <= k < out.len() && #[trigger] out[k] == rows[i as int];
                part::lemma_row_of(out, id, k);
            } else if part::row_of(out, id) is Some {
                let k = part::row_of(out, id)->0 as int;
                let j = choose|j: int| 0 <= j < rows.len() && #[trigger] rows[j] == out[k];
                part::lemma_row_of(rows, id, j);
            }
        },
        None => {
            if part::row_of(out, id) is Some {
                let k = part::row_of(out, id)->0 as int;
                let j = choose|j: int| 0 <= j < rows.len() && #[trigger] rows[j] == out[k];
                part::lemma_row_of(rows, id, j);
            }
        },
    }
}

proof fn lemma_record_kept(rows: Seq<RowView>, n: nat, i: int)
    requires
        0 <= i < n <= rows.len(),
        rows[i].record is Some,
    ensures
        exists|k: int|
            0 <= k < publish::records_only(rows, n).len() && #[trigger] publish::records_only(
                rows,
                n,
            )[k] == rows[i],
    decreases n,
{
    let out = publish::records_only(rows, n);
    if i == n - 1 {
        assert(out[out.len() - 1] == rows[i]);
    } else {
        lemma_record_kept(rows, (n - 1) as nat, i);
        let before = publish::records_only(rows, (n - 1) as nat);
        let k = choose|k: int| 0 <= k < before.len() && #[trigger] before[k] == rows[i];
        assert(out[k] == before[k]);
    }
}

/// The row that decides an id after a merge: the one before it, but for a tombstone that a total
/// merge dropped.
pub proof fn lemma_merge_row(s: StoreView, lo: int, len: int, x: PartView, id: Seq<char>)
    requires
        part::parts_sound(s.parts),
        0 <= lo,
        publish::mergeable(s, lo, len),
        x.rows == publish::merge_output(s.parts, lo, lo + len),
    ensures
        ({
            let after = publish::spliced(s.parts, lo as nat, len as nat, x);
            match newest_row(s.parts, id) {
                Some(row) => newest_row(after, id) == Some(row) || (row.record is None
                    && newest_row(after, id) is None),
                None => newest_row(after, id) is None,
            }
        }),
{
    let hi = lo + len;
    let a = s.parts.take(lo);
    let run = s.parts.subrange(lo, hi);
    let b = s.parts.skip(hi);
    let after = publish::spliced(s.parts, lo as nat, len as nat, x);
    assert(s.parts =~= (a + run) + b);
    assert(after =~= (a + seq![x]) + b);
    lemma_newest_row_append(a + run, b, id);
    lemma_newest_row_append(a, run, id);
    lemma_newest_row_append(a + seq![x], b, id);
    lemma_newest_row_append(a, seq![x], id);
    lemma_newest_one(x, id);
    lemma_merged_row(s.parts, lo, hi, id);
    publish::lemma_merged_ordered(s.parts, lo, hi);
    let rows = publish::merged_rows(s.parts, lo, hi);
    if lo == 0 && hi == s.parts.len() {
        lemma_records_row(rows, id);
        assert(a =~= Seq::<PartView>::empty());
        assert(b =~= Seq::<PartView>::empty());
        read::lemma_newest(a, id);
        read::lemma_newest(b, id);
    }
}

/// A merge changes nothing that is shown.
pub proof fn lemma_merge_visible(
    s: StoreView,
    lo: int,
    len: int,
    p: PlanView,
    e: EncodedPart,
    m: ManifestView,
    id: Seq<char>,
)
    requires
        engine::store_ok(s),
        0 <= lo,
        publish::mergeable(s, lo, len),
        publish::merge_plan(s, lo, len) == Ok::<PlanView, PublishError>(p),
    ensures
        engine_read::visible(publish::published_store(s, p, e, m, s.wal), id)
            == engine_read::visible(s, id),
{
    let x = publish::plan_part(p, e.sections, e.section_bytes);
    lemma_merge_row(s, lo, len, x, id);
    let t = publish::published_store(s, p, e, m, s.wal);
    assert(t.parts == publish::spliced(s.parts, lo as nat, len as nat, x));
}

/// Two readable locations of one identity hold the same bytes.
pub open spec fn agreeing(f: FoldView) -> bool {
    forall|h: Seq<u8>, a: Loc, b: Loc|
        (#[trigger] fold::fold_read(f, a, h)) is Ok && (#[trigger] fold::fold_read(f, b, h)) is Ok
            ==> fold::fold_read(f, a, h) == fold::fold_read(f, b, h)
}

/// Every entry reads as its piece.
pub open spec fn dict_reads(f: FoldView, d: Seq<(Seq<u8>, Loc)>) -> bool {
    forall|h: Seq<u8>|
        (#[trigger] part::find_loc(d, h)) is Some ==> fold::fold_read(
            f,
            part::find_loc(d, h)->0,
            h,
        ) is Ok
}

proof fn lemma_usable(
    f: FoldView,
    d: Seq<(Seq<u8>, Loc)>,
    pieces: Seq<(Seq<u8>, Loc)>,
    n: nat,
)
    requires
        dict_reads(f, d),
        n <= pieces.len(),
        publish::usable_entries(f, d, pieces, n) is Ok,
    ensures
        dict_reads(f, publish::usable_entries(f, d, pieces, n)->Ok_0),
        dict_grows(d, publish::usable_entries(f, d, pieces, n)->Ok_0),
        forall|i: int|
            0 <= i < n && fold::fold_read(f, (#[trigger] pieces[i]).1, pieces[i].0) is Ok
                ==> part::find_loc(
                publish::usable_entries(f, d, pieces, n)->Ok_0,
                pieces[i].0,
            ) is Some,
    decreases n,
{
    if n > 0 {
        lemma_usable(f, d, pieces, (n - 1) as nat);
        let before = publish::usable_entries(f, d, pieces, (n - 1) as nat)->Ok_0;
        let after = publish::usable_entries(f, d, pieces, n)->Ok_0;
        let (h, loc) = pieces[n - 1];
        assert forall|g: Seq<u8>| part::find_loc(before, g) is Some implies #[trigger] part::find_loc(
            after,
            g,
        ) == part::find_loc(before, g) by {
            writer::lemma_find_pushed(before, h, loc, g);
        }
        assert forall|g: Seq<u8>| (#[trigger] part::find_loc(after, g)) is Some implies fold::fold_read(
            f,
            part::find_loc(after, g)->0,
            g,
        ) is Ok by {
            writer::lemma_find_pushed(before, h, loc, g);
            if part::find_loc(before, g) is Some {
                assert(fold::fold_read(f, part::find_loc(before, g)->0, g) is Ok);
            }
        }
        writer::lemma_find_pushed(before, h, loc, h);
        assert forall|i: int| 0 <= i < n && fold::fold_read(
            f,
            (#[trigger] pieces[i]).1,
            pieces[i].0,
        ) is Ok implies part::find_loc(after, pieces[i].0) is Some by {
            if i < n - 1 {
                assert(part::find_loc(before, pieces[i].0) is Some);
                assert(part::find_loc(after, pieces[i].0) == part::find_loc(before, pieces[i].0));
            }
        }
    }
}

pub proof fn lemma_merged_dictionary(parts: Seq<PartView>, f: FoldView, lo: int, hi: int, q: int)
    requires
        0 <= lo <= hi <= parts.len(),
        publish::merged_dictionary(parts, f, lo, hi) is Ok,
    ensures
        dict_reads(f, publish::merged_dictionary(parts, f, lo, hi)->Ok_0),
        lo <= q < hi ==> forall|i: int|
            0 <= i < parts[q].pieces.len() && fold::fold_read(
                f,
                (#[trigger] parts[q].pieces[i]).1,
                parts[q].pieces[i].0,
            ) is Ok ==> part::find_loc(
                publish::merged_dictionary(parts, f, lo, hi)->Ok_0,
                parts[q].pieces[i].0,
            ) is Some,
    decreases hi - lo,
{
    if lo < hi {
        lemma_merged_dictionary(parts, f, lo, hi - 1, q);
        let before = publish::merged_dictionary(parts, f, lo, hi - 1)->Ok_0;
        let pieces = parts[hi - 1].pieces;
        lemma_usable(f, before, pieces, pieces.len());
        let after = publish::merged_dictionary(parts, f, lo, hi)->Ok_0;
        if lo <= q < hi - 1 {
            assert forall|i: int| 0 <= i < parts[q].pieces.len() && fold::fold_read(
                f,
                (#[trigger] parts[q].pieces[i]).1,
                parts[q].pieces[i].0,
            ) is Ok implies part::find_loc(after, parts[q].pieces[i].0) is Some by {
                let h = parts[q].pieces[i].0;
                assert(part::find_loc(before, h) is Some);
                assert(part::find_loc(after, h) == part::find_loc(before, h));
            }
        }
    }
}

proof fn lemma_merged_program(
    f: FoldView,
    old: Seq<(Seq<u8>, Loc)>,
    new: Seq<(Seq<u8>, Loc)>,
    ops: Seq<OpView>,
)
    requires
        agreeing(f),
        dict_reads(f, new),
        forall|i: int|
            0 <= i < old.len() && fold::fold_read(f, (#[trigger] old[i]).1, old[i].0) is Ok
                ==> part::find_loc(new, old[i].0) is Some,
        part::program_bytes(old, f, ops) is Ok,
    ensures
        part::program_bytes(new, f, ops) == part::program_bytes(old, f, ops),
    decreases ops.len(),
{
    if ops.len() > 0 {
        lemma_merged_program(f, old, new, ops.drop_last());
        if let OpView::Piece { hash, len } = ops.last() {
            let a = part::find_loc(old, hash)->0;
            writer::lemma_find_loc(old, hash);
            let i = choose|i: int| 0 <= i < old.len() && #[trigger] old[i] == (hash, a);
            assert(fold::fold_read(f, old[i].1, old[i].0) is Ok);
            let b = part::find_loc(new, hash)->0;
            assert(fold::fold_read(f, b, hash) is Ok);
            assert(fold::fold_read(f, a, hash) == fold::fold_read(f, b, hash));
            assert(fold::fold_read(f, a, hash)->Ok_0.len() == a.raw);
            assert(fold::fold_read(f, b, hash)->Ok_0.len() == b.raw);
        }
    }
}

/// A merge changes no value that could be read, where stored bytes of one identity are the same.
pub proof fn lemma_merge_value(
    s: StoreView,
    lo: int,
    len: int,
    p: PlanView,
    e: EncodedPart,
    m: ManifestView,
    id: Seq<char>,
    name: Seq<char>,
)
    requires
        engine::store_ok(s),
        0 <= lo,
        publish::mergeable(s, lo, len),
        publish::merge_plan(s, lo, len) == Ok::<PlanView, PublishError>(p),
        agreeing(s.writer.fold),
        read::value_of(s.parts, s.writer.fold, id, name) is Ok,
    ensures
        ({
            let t = publish::published_store(s, p, e, m, s.wal);
            read::value_of(t.parts, t.writer.fold, id, name) == read::value_of(
                s.parts,
                s.writer.fold,
                id,
                name,
            )
        }),
{
    let hi = lo + len;
    let x = publish::plan_part(p, e.sections, e.section_bytes);
    let t = publish::published_store(s, p, e, m, s.wal);
    let a = s.parts.take(lo);
    let run = s.parts.subrange(lo, hi);
    let b = s.parts.skip(hi);
    let one = seq![x];
    assert(s.parts =~= (a + run) + b);
    assert(t.parts =~= (a + one) + b);
    lemma_newest_append(a + run, b, id);
    lemma_newest_append(a, run, id);
    lemma_newest_append(a + one, b, id);
    lemma_newest_append(a, one, id);
    lemma_newest_one(x, id);
    lemma_merge_row(s, lo, len, x, id);
    read::lemma_newest(s.parts, id);
    read::lemma_newest(t.parts, id);
    read::lemma_newest(a, id);
    read::lemma_newest(run, id);
    read::lemma_newest(b, id);
    read::lemma_newest(one, id);
    match read::located(s.parts, id) {
        None => {},
        Some((q, row)) => {
            let r = s.parts[q as int].rows[row as int].record->0;
            if read::newest(b, id) is None && read::newest(run, id) is Some {
                let (rp, rr) = read::newest(run, id)->0;
                assert(q == lo + rp);
                lemma_merged_row(s.parts, lo, hi, id);
                publish::lemma_merged_ordered(s.parts, lo, hi);
                let rows = publish::merged_rows(s.parts, lo, hi);
                lemma_records_row(rows, id);
                assert(memtable::row_at(x.rows, id) is Some);
                assert(newest_row(one, id) is Some);
                if let Some(c) = part::content_named(r.contents, name) {
                    lemma_merged_dictionary(s.parts, s.writer.fold, lo, hi, q as int);
                    lemma_merged_program(
                        s.writer.fold,
                        s.parts[q as int].pieces,
                        p.pieces,
                        c.ops,
                    );
                }
            } else if read::newest(b, id) is None {
                assert(newest_row(one, id) is None) by {
                    lemma_merged_row(s.parts, lo, hi, id);
                    publish::lemma_merged_ordered(s.parts, lo, hi);
                    lemma_records_row(publish::merged_rows(s.parts, lo, hi), id);
                }
            }
        },
    }
}

} // verus!
