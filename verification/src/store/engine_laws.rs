//! What a writer promises: a read gives back what was written, the last write wins, and nothing
//! else moves.

use crate::fold;
use crate::fold::{FoldView, Loc};
use crate::hash;
use crate::memtable;
use crate::part;
use crate::part::{PartView, ReadError, RowView};
use crate::store::admission;
use crate::store::admission::{SpanView, SpansView};
use crate::store::batch_apply;
use crate::store::batch_apply::MemberView;
use crate::store::carve;
use crate::store::carve::ItemView;
use crate::store::engine;
use crate::store::engine::{StoreFault, StoreView};
use crate::store::engine_read;
use crate::store::read;
use crate::store::writer;
use crate::store::writer::{Novel, WriterView};
use crate::types;
use crate::types::{AttrView, ContentView, OpView, RecordView};
use vstd::prelude::*;

verus! {

// ---------------------------------------------------------------------------------------------
// Where pieces are, before and after folding.
// ---------------------------------------------------------------------------------------------
/// Every piece that one writer locates, the other locates at the same place.
pub open spec fn relocates(parts: Seq<PartView>, w: WriterView, after: WriterView) -> bool {
    forall|h: Seq<u8>|
        (writer::located_piece(parts, w.fold, w.window, h) matches Ok(Some(_)))
            ==> #[trigger] writer::located_piece(parts, after.fold, after.window, h)
            == writer::located_piece(parts, w.fold, w.window, h)
}

/// A fold that reads more locates in the parts what the other did.
pub proof fn lemma_located_in_extends(
    parts: Seq<PartView>,
    f: FoldView,
    g: FoldView,
    h: Seq<u8>,
    n: nat,
)
    requires
        writer::extends(f, g),
        writer::located_in(parts, f, h, n) is Ok,
    ensures
        writer::located_in(parts, g, h, n) == writer::located_in(parts, f, h, n),
    decreases n,
{
    if n > 0 {
        match part::find_loc(parts[n - 1].pieces, h) {
            None => {
                lemma_located_in_extends(parts, f, g, h, (n - 1) as nat);
            },
            Some(loc) => {
                if fold::in_ranges(f.punched, loc.block_id) {
                    lemma_located_in_extends(parts, f, g, h, (n - 1) as nat);
                } else {
                    assert(fold::fold_read(f, loc, h) is Ok);
                    assert(fold::fold_read(g, loc, h) == fold::fold_read(f, loc, h));
                }
            },
        }
    }
}

pub proof fn lemma_folded_relocates(parts: Seq<PartView>, w: WriterView, b: Seq<u8>)
    requires
        writer::writer_ok(w),
        b.len() <= u32::MAX,
        writer::folded(parts, w, b) is Ok,
    ensures
        relocates(parts, w, (writer::folded(parts, w, b)->Ok_0).0),
{
    let (after, loc, deduped) = writer::folded(parts, w, b)->Ok_0;
    let hb = hash::blake3_digest(b);
    writer::lemma_folded(parts, w, b);
    assert forall|h: Seq<u8>|
        (writer::located_piece(parts, w.fold, w.window, h) matches Ok(
            Some(_),
        )) implies #[trigger] writer::located_piece(parts, after.fold, after.window, h)
        == writer::located_piece(parts, w.fold, w.window, h) by {
        match part::find_loc(w.window, h) {
            Some(l) => {
                assert(part::find_loc(after.window, h) == Some(l));
            },
            None => {
                lemma_located_in_extends(parts, w.fold, after.fold, h, parts.len());
                writer::lemma_find_pushed(w.window, hb, loc, h);
            },
        }
    }
}

/// Folding spans moves no located piece.
pub proof fn lemma_spans_relocate(
    parts: Seq<PartView>,
    w: WriterView,
    novel: Novel,
    spans: Seq<SpanView>,
    n: nat,
)
    requires
        writer::writer_ok(w),
        !admission::any_too_long(spans),
        n <= spans.len(),
        writer::folded_spans(parts, w, novel, spans, n) is Ok,
    ensures
        relocates(parts, w, (writer::folded_spans(parts, w, novel, spans, n)->Ok_0).0),
    decreases n,
{
    if n > 0 {
        lemma_spans_relocate(parts, w, novel, spans, (n - 1) as nat);
        let (before, news) = writer::folded_spans(parts, w, novel, spans, (n - 1) as nat)->Ok_0;
        writer::lemma_folded_spans(parts, w, novel, spans, (n - 1) as nat);
        let s = spans[n - 1];
        assert(!admission::span_too_long(s));
        if admission::is_piece(s) {
            let b = admission::span_bytes(s);
            lemma_folded_relocates(parts, before, b);
            let after = (writer::folded(parts, before, b)->Ok_0).0;
            lemma_relocates_trans(parts, w, before, after);
        }
    }
}

pub proof fn lemma_relocates_trans(parts: Seq<PartView>, a: WriterView, b: WriterView, c: WriterView)
    requires
        relocates(parts, a, b),
        relocates(parts, b, c),
    ensures
        relocates(parts, a, c),
{
    assert forall|h: Seq<u8>|
        (writer::located_piece(parts, a.fold, a.window, h) matches Ok(
            Some(_),
        )) implies #[trigger] writer::located_piece(parts, c.fold, c.window, h)
        == writer::located_piece(parts, a.fold, a.window, h) by {
        assert(writer::located_piece(parts, b.fold, b.window, h) == writer::located_piece(
            parts,
            a.fold,
            a.window,
            h,
        ));
    }
}

/// Folding contents moves no located piece.
pub proof fn lemma_contents_relocate(
    parts: Seq<PartView>,
    w: WriterView,
    contents: Seq<SpansView>,
    n: nat,
)
    requires
        writer::writer_ok(w),
        n <= contents.len(),
        forall|i: int| 0 <= i < n ==> !admission::any_too_long((#[trigger] contents[i]).spans),
        writer::folded_contents(parts, w, contents, n) is Ok,
    ensures
        relocates(parts, w, (writer::folded_contents(parts, w, contents, n)->Ok_0).0),
    decreases n,
{
    if n > 0 {
        lemma_contents_relocate(parts, w, contents, (n - 1) as nat);
        writer::lemma_folded_contents(parts, w, contents, (n - 1) as nat);
        let (before, news) = writer::folded_contents(parts, w, contents, (n - 1) as nat)->Ok_0;
        let spans = contents[n - 1].spans;
        lemma_spans_relocate(parts, before, news, spans, spans.len());
        let after = (writer::folded_spans(parts, before, news, spans, spans.len())->Ok_0).0;
        lemma_relocates_trans(parts, w, before, after);
    }
}

// ---------------------------------------------------------------------------------------------
// Values under a fold that reads more.
// ---------------------------------------------------------------------------------------------
/// A committed program that reads keeps its bytes.
pub proof fn lemma_program_extends(
    pieces: Seq<(Seq<u8>, Loc)>,
    f: FoldView,
    g: FoldView,
    ops: Seq<OpView>,
)
    requires
        writer::extends(f, g),
        part::program_bytes(pieces, f, ops) is Ok,
    ensures
        part::program_bytes(pieces, g, ops) == part::program_bytes(pieces, f, ops),
    decreases ops.len(),
{
    if ops.len() > 0 {
        lemma_program_extends(pieces, f, g, ops.drop_last());
        match ops.last() {
            OpView::Piece { hash, len } => {
                let loc = part::find_loc(pieces, hash)->0;
                assert(fold::fold_read(f, loc, hash) is Ok);
                assert(fold::fold_read(g, loc, hash) == fold::fold_read(f, loc, hash));
            },
            OpView::Lit(_) => {},
        }
    }
}

/// A staged program that reads keeps its bytes.
pub proof fn lemma_staged_extends(
    parts: Seq<PartView>,
    w: WriterView,
    after: WriterView,
    ops: Seq<OpView>,
)
    requires
        writer::extends(w.fold, after.fold),
        relocates(parts, w, after),
        engine_read::staged_program(parts, w, ops) is Ok,
    ensures
        engine_read::staged_program(parts, after, ops) == engine_read::staged_program(
            parts,
            w,
            ops,
        ),
    decreases ops.len(),
{
    if ops.len() > 0 {
        lemma_staged_extends(parts, w, after, ops.drop_last());
        match ops.last() {
            OpView::Piece { hash, len } => {
                let loc = (writer::located_piece(parts, w.fold, w.window, hash)->Ok_0)->0;
                assert(writer::located_piece(parts, after.fold, after.window, hash)
                    == writer::located_piece(parts, w.fold, w.window, hash));
                assert(fold::fold_read(w.fold, loc, hash) is Ok);
                assert(fold::fold_read(after.fold, loc, hash) == fold::fold_read(
                    w.fold,
                    loc,
                    hash,
                ));
            },
            OpView::Lit(_) => {},
        }
    }
}

/// A value that reads keeps its bytes when a writer has folded more.
pub proof fn lemma_value_extends(s: StoreView, t: StoreView, id: Seq<char>, name: Seq<char>)
    requires
        t.parts == s.parts,
        memtable::row_at(t.mem, id) == memtable::row_at(s.mem, id),
        writer::extends(s.writer.fold, t.writer.fold),
        relocates(s.parts, s.writer, t.writer),
        engine_read::value(s, id, name) is Ok,
    ensures
        engine_read::value(t, id, name) == engine_read::value(s, id, name),
{
    match memtable::row_at(s.mem, id) {
        None => {
            match read::located(s.parts, id) {
                None => {},
                Some((p, row)) => {
                    match part::content_named(
                        s.parts[p as int].rows[row as int].record->0.contents,
                        name,
                    ) {
                        None => {},
                        Some(c) => {
                            lemma_program_extends(
                                s.parts[p as int].pieces,
                                s.writer.fold,
                                t.writer.fold,
                                c.ops,
                            );
                        },
                    }
                },
            }
        },
        Some(row) => {
            if let Some(r) = row.record {
                if let Some(c) = part::content_named(r.contents, name) {
                    lemma_staged_extends(s.parts, s.writer, t.writer, c.ops);
                }
            }
        },
    }
}

// ---------------------------------------------------------------------------------------------
// A put.
// ---------------------------------------------------------------------------------------------
pub proof fn lemma_put_admitted(
    s: StoreView,
    id: Seq<char>,
    contents: Seq<SpansView>,
    attrs: Seq<(Seq<char>, AttrView)>,
)
    requires
        engine::entry_refusal(
            s,
            admission::record_fault(
                id,
                contents,
                attrs,
                s.write_limits,
                s.read_limits,
                None,
                true,
            ),
            1,
        ) is None,
    ensures
        types::contents_fault(carve::carved_all(contents)) is None,
        forall|i: int|
            0 <= i < contents.len() ==> !admission::any_too_long((#[trigger] contents[i]).spans),
{
    engine::lemma_admitted(contents, s.write_limits, s.read_limits, None, true);
}

/// After an accepted put the id shows the record that was put: its attributes, and its contents
/// in name order. Every other id shows what it showed.
pub proof fn lemma_put_visible(
    s: StoreView,
    t: StoreView,
    id: Seq<char>,
    contents: Seq<SpansView>,
    attrs: Seq<(Seq<char>, AttrView)>,
    other: Seq<char>,
)
    requires
        engine::store_ok(s),
        engine::put_outcome(s, t, id, contents, attrs, Ok(())),
    ensures
        engine_read::visible(t, id) matches Some(r) && engine::carved_record(
            id,
            contents,
            attrs,
            r,
        ),
        other != id ==> engine_read::visible(t, other) == engine_read::visible(s, other),
{
    let (after, novel) = writer::folded_contents(
        s.parts,
        s.writer,
        contents,
        contents.len(),
    )->Ok_0;
    let rec = choose|rec: RecordView|
        {
            &&& #[trigger] engine::carved_record(id, contents, attrs, rec)
            &&& engine::log_outcome(s.wal, t.wal, engine::pending_seq(s), rec, novel, Ok(()))
            &&& t == StoreView {
                writer: after,
                wal: t.wal,
                mem: memtable::rows_put(s.mem, RowView { id, record: Some(rec) }),
                mem_bytes: engine::heavier(s.mem_bytes, engine::record_weight(rec)),
                ..s
            }
        };
    memtable::lemma_put_lookup(s.mem, RowView { id, record: Some(rec) }, id);
    memtable::lemma_put_lookup(s.mem, RowView { id, record: Some(rec) }, other);
}

/// After an accepted put the id's staged record is the one that shows.
pub proof fn lemma_put_staged(
    s: StoreView,
    t: StoreView,
    id: Seq<char>,
    contents: Seq<SpansView>,
    attrs: Seq<(Seq<char>, AttrView)>,
)
    requires
        engine::store_ok(s),
        engine::put_outcome(s, t, id, contents, attrs, Ok(())),
    ensures
        engine_read::staged_record(t.mem, id) is Some,
        engine_read::staged_record(t.mem, id) == engine_read::visible(t, id),
{
    let (after, novel) = writer::folded_contents(
        s.parts,
        s.writer,
        contents,
        contents.len(),
    )->Ok_0;
    let rec = choose|rec: RecordView|
        {
            &&& #[trigger] engine::carved_record(id, contents, attrs, rec)
            &&& engine::log_outcome(s.wal, t.wal, engine::pending_seq(s), rec, novel, Ok(()))
            &&& t == StoreView {
                writer: after,
                wal: t.wal,
                mem: memtable::rows_put(s.mem, RowView { id, record: Some(rec) }),
                mem_bytes: engine::heavier(s.mem_bytes, engine::record_weight(rec)),
                ..s
            }
        };
    memtable::lemma_put_lookup(s.mem, RowView { id, record: Some(rec) }, id);
}

/// A refused or failed put shows what was shown.
pub proof fn lemma_put_refused(
    s: StoreView,
    t: StoreView,
    id: Seq<char>,
    contents: Seq<SpansView>,
    attrs: Seq<(Seq<char>, AttrView)>,
    e: StoreFault,
    other: Seq<char>,
)
    requires
        engine::put_outcome(s, t, id, contents, attrs, Err(e)),
    ensures
        engine_read::visible(t, other) == engine_read::visible(s, other),
{
}

/// A put changes no value of another id that could be read.
pub proof fn lemma_put_keeps_values(
    s: StoreView,
    t: StoreView,
    id: Seq<char>,
    contents: Seq<SpansView>,
    attrs: Seq<(Seq<char>, AttrView)>,
    other: Seq<char>,
    name: Seq<char>,
)
    requires
        engine::store_ok(s),
        engine::put_outcome(s, t, id, contents, attrs, Ok(())),
        other != id,
        engine_read::value(s, other, name) is Ok,
    ensures
        engine_read::value(t, other, name) == engine_read::value(s, other, name),
{
    lemma_put_admitted(s, id, contents, attrs);
    let (after, novel) = writer::folded_contents(
        s.parts,
        s.writer,
        contents,
        contents.len(),
    )->Ok_0;
    let rec = choose|rec: RecordView|
        {
            &&& #[trigger] engine::carved_record(id, contents, attrs, rec)
            &&& engine::log_outcome(s.wal, t.wal, engine::pending_seq(s), rec, novel, Ok(()))
            &&& t == StoreView {
                writer: after,
                wal: t.wal,
                mem: memtable::rows_put(s.mem, RowView { id, record: Some(rec) }),
                mem_bytes: engine::heavier(s.mem_bytes, engine::record_weight(rec)),
                ..s
            }
        };
    memtable::lemma_put_lookup(s.mem, RowView { id, record: Some(rec) }, other);
    writer::lemma_folded_contents(s.parts, s.writer, contents, contents.len());
    lemma_contents_relocate(s.parts, s.writer, contents, contents.len());
    lemma_value_extends(s, t, other, name);
}

/// In a map put into name order, a name finds the value it had.
pub proof fn lemma_canonical_named(from: Seq<ContentView>, to: Seq<ContentView>, k: int)
    requires
        types::canonical_of(from, to),
        0 <= k < from.len(),
    ensures
        part::content_named(to, from[k].name) == Some(from[k]),
{
    from.to_multiset_ensures();
    to.to_multiset_ensures();
    assert(from.contains(from[k]));
    assert(to.to_multiset().count(from[k]) > 0);
    assert(to.contains(from[k]));
    let j = choose|j: int| 0 <= j < to.len() && to[j] == from[k];
    lemma_named_at(to, j);
}

proof fn lemma_named_at(contents: Seq<ContentView>, j: int)
    requires
        types::names_ascending(contents),
        0 <= j < contents.len(),
    ensures
        part::content_named(contents, contents[j].name) == Some(contents[j]),
    decreases contents.len(),
{
    if j > 0 {
        crate::bytes::lemma_name_order(contents[0].name, contents[j].name, contents[0].name);
        assert(crate::bytes::name_lt(contents[0].name, contents[j].name));
        let rest = contents.drop_first();
        assert forall|a: int, b: int| 0 <= a < b < rest.len() implies crate::bytes::name_lt(
            (#[trigger] rest[a]).name,
            (#[trigger] rest[b]).name,
        ) by {
            assert(rest[a] == contents[a + 1] && rest[b] == contents[b + 1]);
        }
        lemma_named_at(rest, j - 1);
    }
}

/// Whatever the fold reads as a span's piece is that span: no other stored bytes share its
/// identity.
pub open spec fn genuine(f: FoldView, spans: Seq<SpanView>) -> bool {
    forall|i: int, loc: Loc|
        0 <= i < spans.len() && admission::is_piece(spans[i]) ==> match #[trigger] fold::fold_read(
            f,
            loc,
            hash::blake3_digest(admission::span_bytes(#[trigger] spans[i])),
        ) {
            Ok(x) => x == admission::span_bytes(spans[i]),
            Err(_) => true,
        }
}

proof fn lemma_carved_program(parts: Seq<PartView>, w: WriterView, spans: Seq<SpanView>, n: nat)
    requires
        n <= spans.len(),
        forall|i: int|
            0 <= i < n && admission::is_piece(#[trigger] spans[i]) ==> writer::windowed(
                w,
                admission::span_bytes(spans[i]),
            ),
        genuine(w.fold, spans),
    ensures
        engine_read::staged_program(parts, w, carve::span_ops(spans).take(n as int)) == Ok::<
            Seq<u8>,
            ReadError,
        >(admission::spans_bytes(spans.take(n as int))),
    decreases n,
{
    let ops = carve::span_ops(spans);
    if n == 0 {
        assert(ops.take(0) =~= Seq::<OpView>::empty());
        assert(spans.take(0) =~= Seq::<SpanView>::empty());
    } else {
        lemma_carved_program(parts, w, spans, (n - 1) as nat);
        assert(ops.take(n as int).drop_last() =~= ops.take(n - 1));
        assert(spans.take(n as int).drop_last() =~= spans.take(n - 1));
        let s = spans[n - 1];
        assert(ops.take(n as int).last() == carve::span_op(s));
        if admission::is_piece(s) {
            let b = admission::span_bytes(s);
            assert(writer::windowed(w, b));
            let loc = part::find_loc(w.window, hash::blake3_digest(b))->0;
            assert(fold::fold_read(w.fold, loc, hash::blake3_digest(b)) is Ok);
        }
    }
}

/// A read gives back what was put: after an accepted put, the value under each of its names is the
/// bytes of its spans end to end, unless stored bytes of a piece's identity are not that piece.
pub proof fn lemma_put_reads(
    s: StoreView,
    t: StoreView,
    id: Seq<char>,
    contents: Seq<SpansView>,
    attrs: Seq<(Seq<char>, AttrView)>,
    k: int,
)
    requires
        engine::store_ok(s),
        engine::put_outcome(s, t, id, contents, attrs, Ok(())),
        0 <= k < contents.len(),
        genuine(t.writer.fold, contents[k].spans),
    ensures
        engine_read::value(t, id, contents[k].name) == Ok::<Option<Seq<u8>>, ReadError>(
            Some(admission::spans_bytes(contents[k].spans)),
        ),
{
    lemma_put_admitted(s, id, contents, attrs);
    let (after, novel) = writer::folded_contents(
        s.parts,
        s.writer,
        contents,
        contents.len(),
    )->Ok_0;
    let rec = choose|rec: RecordView|
        {
            &&& #[trigger] engine::carved_record(id, contents, attrs, rec)
            &&& engine::log_outcome(s.wal, t.wal, engine::pending_seq(s), rec, novel, Ok(()))
            &&& t == StoreView {
                writer: after,
                wal: t.wal,
                mem: memtable::rows_put(s.mem, RowView { id, record: Some(rec) }),
                mem_bytes: engine::heavier(s.mem_bytes, engine::record_weight(rec)),
                ..s
            }
        };
    memtable::lemma_put_lookup(s.mem, RowView { id, record: Some(rec) }, id);
    let all = carve::carved_all(contents);
    lemma_canonical_named(all, rec.contents, k);
    let spans = contents[k].spans;
    writer::lemma_folded_contents(s.parts, s.writer, contents, contents.len());
    assert forall|i: int| 0 <= i < spans.len() && admission::is_piece(
        #[trigger] spans[i],
    ) implies writer::windowed(t.writer, admission::span_bytes(spans[i])) by {
        assert(contents[k].spans[i] == spans[i]);
    }
    lemma_carved_program(t.parts, t.writer, spans, spans.len());
    assert(carve::span_ops(spans).take(spans.len() as int) =~= carve::span_ops(spans));
    assert(spans.take(spans.len() as int) =~= spans);
}

// ---------------------------------------------------------------------------------------------
// A deletion.
// ---------------------------------------------------------------------------------------------
/// After an accepted deletion the id shows nothing and every other id shows what it showed, with
/// the values it had.
pub proof fn lemma_delete_visible(
    s: StoreView,
    t: StoreView,
    id: Seq<char>,
    other: Seq<char>,
    name: Seq<char>,
)
    requires
        engine::store_ok(s),
        engine::delete_outcome(s, t, id, Ok(())),
    ensures
        engine_read::visible(t, id) is None,
        engine_read::value(t, id, name) == Ok::<Option<Seq<u8>>, ReadError>(None),
        other != id ==> engine_read::visible(t, other) == engine_read::visible(s, other),
        other != id ==> engine_read::value(t, other, name) == engine_read::value(s, other, name),
{
    memtable::lemma_put_lookup(s.mem, RowView { id, record: None }, id);
    memtable::lemma_put_lookup(s.mem, RowView { id, record: None }, other);
}

// ---------------------------------------------------------------------------------------------
// A batch.
// ---------------------------------------------------------------------------------------------
/// The last of the first `n` members that speaks of an id.
pub open spec fn last_member(members: Seq<MemberView>, id: Seq<char>, n: nat) -> Option<MemberView>
    decreases n,
{
    if n == 0 {
        None
    } else if members[n - 1].0.id == id {
        Some(members[n - 1])
    } else {
        last_member(members, id, (n - 1) as nat)
    }
}

pub proof fn lemma_staged_lookup(mem: Seq<RowView>, members: Seq<MemberView>, n: nat, id: Seq<char>)
    requires
        part::ids_ascending(mem),
    ensures
        part::ids_ascending(batch_apply::staged(mem, members, n)),
        memtable::row_at(batch_apply::staged(mem, members, n), id) == match last_member(
            members,
            id,
            n,
        ) {
            Some(m) => Some(batch_apply::member_row(m)),
            None => memtable::row_at(mem, id),
        },
    decreases n,
{
    if n > 0 {
        lemma_staged_lookup(mem, members, (n - 1) as nat, id);
        let before = batch_apply::staged(mem, members, (n - 1) as nat);
        let row = batch_apply::member_row(members[n - 1]);
        memtable::lemma_rows_put(before, row);
        memtable::lemma_put_lookup(before, row, id);
    }
}

/// The last of the first `n` items that speaks of an id.
pub open spec fn last_item(items: Seq<ItemView>, id: Seq<char>, n: nat) -> Option<ItemView>
    decreases n,
{
    if n == 0 {
        None
    } else if item_id(items[n - 1]) == id {
        Some(items[n - 1])
    } else {
        last_item(items, id, (n - 1) as nat)
    }
}

/// The id an item speaks of.
pub open spec fn item_id(item: ItemView) -> Seq<char> {
    match item {
        ItemView::Put { id, .. } => id,
        ItemView::Delete { id } => id,
    }
}

proof fn lemma_last_item(
    items: Seq<ItemView>,
    news: Seq<Novel>,
    members: Seq<MemberView>,
    id: Seq<char>,
    n: nat,
)
    requires
        batch_apply::all_framed(items, news, members),
        n <= members.len(),
    ensures
        match (last_item(items, id, n), last_member(members, id, n)) {
            (None, None) => true,
            (Some(ItemView::Delete { .. }), Some(m)) => m.2,
            (Some(ItemView::Put { id: i, contents, attrs }), Some(m)) => {
                &&& !m.2
                &&& engine::carved_record(i, contents, attrs, m.0)
            },
            _ => false,
        },
    decreases n,
{
    if n > 0 {
        assert(batch_apply::framed(items[n - 1], news[n - 1], members[n - 1]));
        lemma_last_item(items, news, members, id, (n - 1) as nat);
    }
}

/// After an accepted batch each id shows what the last member that speaks of it says, and every
/// other id what it showed.
pub proof fn lemma_apply_visible(s: StoreView, t: StoreView, items: Seq<ItemView>, id: Seq<char>)
    requires
        engine::store_ok(s),
        batch_apply::apply_outcome(s, t, items, Ok(())),
    ensures
        match last_item(items, id, items.len()) {
            None => engine_read::visible(t, id) == engine_read::visible(s, id),
            Some(ItemView::Delete { .. }) => engine_read::visible(t, id) is None,
            Some(ItemView::Put { id: i, contents, attrs }) => engine_read::visible(
                t,
                id,
            ) matches Some(r) && engine::carved_record(i, contents, attrs, r),
        },
{
    if items.len() > 0 {
        let (after, news) = batch_apply::folded_items(
            s.parts,
            s.writer,
            items,
            items.len(),
        )->Ok_0;
        let members = choose|members: Seq<MemberView>|
            {
                &&& members.len() == items.len()
                &&& #[trigger] batch_apply::all_framed(items, news, members)
                &&& batch_apply::batch_log_outcome(
                    s.wal,
                    t.wal,
                    engine::pending_seq(s),
                    members,
                    Ok(()),
                )
                &&& t == StoreView {
                    writer: after,
                    wal: t.wal,
                    mem: batch_apply::staged(s.mem, members, members.len()),
                    mem_bytes: batch_apply::weighed(s.mem_bytes, members, members.len()),
                    ..s
                }
            };
        lemma_staged_lookup(s.mem, members, members.len(), id);
        lemma_last_item(items, news, members, id, items.len());
    }
}

} // verus!
