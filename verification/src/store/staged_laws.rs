//! What every mutation keeps of what is staged: each piece of a staged record is located, with the
//! length its program gives it.

use crate::fold;
use crate::fold::{FoldError, FoldView, Loc};
use crate::hash;
use crate::memtable;
use crate::part;
use crate::part::{PartView, RowView};
use crate::store::admission;
use crate::store::admission::SpansView;
use crate::store::batch_apply;
use crate::store::batch_apply::MemberView;
use crate::store::carve;
use crate::store::carve::ItemView;
use crate::store::engine;
use crate::store::engine::StoreView;
use crate::store::engine_laws;
use crate::store::engine_read;
use crate::store::manifest::ManifestView;
use crate::store::publish;
use crate::store::publish::{EncodedPart, PlanView, PublishError};
use crate::store::publish_laws;
use crate::store::wal::Wal;
use crate::store::writer;
use crate::store::writer::WriterView;
use crate::types;
use crate::types::{AttrView, ContentView, OpView, RecordView};
use vstd::prelude::*;

verus! {

/// Every piece of a program is located, with the length the program gives it.
pub open spec fn found(parts: Seq<PartView>, w: WriterView, ops: Seq<OpView>) -> bool {
    forall|i: int|
        0 <= i < ops.len() ==> match #[trigger] ops[i] {
            OpView::Piece { hash, len } => writer::located_piece(
                parts,
                w.fold,
                w.window,
                hash,
            ) matches Ok(Some(loc)) && loc.raw == len,
            OpView::Lit(_) => true,
        }
}

/// Every piece of some contents is.
pub open spec fn all_found(parts: Seq<PartView>, w: WriterView, contents: Seq<ContentView>) -> bool {
    forall|k: int| 0 <= k < contents.len() ==> found(parts, w, (#[trigger] contents[k]).ops)
}

/// Every piece of every staged record is.
pub open spec fn staged_found(s: StoreView) -> bool {
    forall|id: Seq<char>|
        (#[trigger] engine_read::staged_record(s.mem, id)) matches Some(r) ==> all_found(
            s.parts,
            s.writer,
            r.contents,
        )
}

/// Located pieces are sized.
pub proof fn lemma_found_sized(parts: Seq<PartView>, w: WriterView, ops: Seq<OpView>)
    requires
        found(parts, w, ops),
    ensures
        publish_laws::sized(parts, w, ops),
{
    assert forall|i: int| 0 <= i < ops.len() implies match #[trigger] ops[i] {
        OpView::Piece { hash, len } => match writer::located_piece(
            parts,
            w.fold,
            w.window,
            hash,
        ) {
            Ok(Some(loc)) => loc.raw == len,
            _ => true,
        },
        OpView::Lit(_) => true,
    } by {}
}

proof fn lemma_found_relocates(
    parts: Seq<PartView>,
    w: WriterView,
    after: WriterView,
    contents: Seq<ContentView>,
)
    requires
        engine_laws::relocates(parts, w, after),
        all_found(parts, w, contents),
    ensures
        all_found(parts, after, contents),
{
    assert forall|k: int| 0 <= k < contents.len() implies found(
        parts,
        after,
        (#[trigger] contents[k]).ops,
    ) by {
        let ops = contents[k].ops;
        assert(found(parts, w, ops));
        assert forall|i: int| 0 <= i < ops.len() implies match #[trigger] ops[i] {
            OpView::Piece { hash, len } => writer::located_piece(
                parts,
                after.fold,
                after.window,
                hash,
            ) matches Ok(Some(loc)) && loc.raw == len,
            OpView::Lit(_) => true,
        } by {
            if let OpView::Piece { hash, len } = ops[i] {
                assert(writer::located_piece(parts, after.fold, after.window, hash)
                    == writer::located_piece(parts, w.fold, w.window, hash));
            }
        }
    }
}

/// Contents whose pieces are in the window are found, where stored bytes of a piece's identity are
/// that piece.
proof fn lemma_carved_found(
    parts: Seq<PartView>,
    w: WriterView,
    contents: Seq<SpansView>,
    to: Seq<ContentView>,
)
    requires
        types::canonical_of(carve::carved_all(contents), to),
        forall|i: int, k: int|
            0 <= i < contents.len() && 0 <= k < contents[i].spans.len() && admission::is_piece(
                #[trigger] contents[i].spans[k],
            ) ==> writer::windowed(w, admission::span_bytes(contents[i].spans[k])),
        forall|i: int|
            0 <= i < contents.len() ==> engine_laws::genuine(
                w.fold,
                (#[trigger] contents[i]).spans,
            ),
    ensures
        all_found(parts, w, to),
{
    let all = carve::carved_all(contents);
    all.to_multiset_ensures();
    to.to_multiset_ensures();
    assert forall|j: int| 0 <= j < to.len() implies found(parts, w, (#[trigger] to[j]).ops) by {
        assert(to.contains(to[j]));
        assert(all.to_multiset().count(to[j]) > 0);
        assert(all.contains(to[j]));
        let k = choose|k: int| 0 <= k < all.len() && all[k] == to[j];
        let spans = contents[k].spans;
        assert(engine_laws::genuine(w.fold, spans));
        let ops = carve::span_ops(spans);
        assert(to[j].ops == ops);
        assert forall|i: int| 0 <= i < ops.len() implies match #[trigger] ops[i] {
            OpView::Piece { hash, len } => writer::located_piece(
                parts,
                w.fold,
                w.window,
                hash,
            ) matches Ok(Some(loc)) && loc.raw == len,
            OpView::Lit(_) => true,
        } by {
            if admission::is_piece(spans[i]) {
                assert(admission::is_piece(contents[k].spans[i]));
                let b = admission::span_bytes(spans[i]);
                assert(writer::windowed(w, b));
                let loc = part::find_loc(w.window, hash::blake3_digest(b))->0;
                assert(fold::fold_read(w.fold, loc, hash::blake3_digest(b))->Ok_0 == b);
            }
        }
    }
}

/// A store that stages nothing has nothing to locate.
pub proof fn lemma_empty_found(s: StoreView)
    requires
        s.mem.len() == 0,
    ensures
        staged_found(s),
{
    assert forall|id: Seq<char>|
        (#[trigger] engine_read::staged_record(s.mem, id)) matches Some(r) implies all_found(
        s.parts,
        s.writer,
        (engine_read::staged_record(s.mem, id)->0).contents,
    ) by {
        assert(part::row_of(s.mem, id) is None);
    }
}

/// A flush changes no value that could be read of a store whose staged pieces are located and
/// sized.
pub proof fn lemma_flush_keeps_values(
    s: StoreView,
    p: PlanView,
    e: EncodedPart,
    m: ManifestView,
    wal: Wal,
    id: Seq<char>,
    name: Seq<char>,
)
    requires
        engine::store_ok(s),
        staged_found(s),
        publish::flush_plan(s) == Ok::<PlanView, PublishError>(p),
        engine_read::value(s, id, name) is Ok,
    ensures
        engine_read::value(publish::published_store(s, p, e, m, wal), id, name)
            == engine_read::value(s, id, name),
{
    if let Some(r) = engine_read::staged_record(s.mem, id) {
        assert(all_found(s.parts, s.writer, r.contents));
        if part::content_named(r.contents, name) is Some {
            let k = part::lemma_content_named(r.contents, name);
            assert(found(s.parts, s.writer, r.contents[k].ops));
            lemma_found_sized(s.parts, s.writer, r.contents[k].ops);
        }
    }
    publish_laws::lemma_flush_value(s, p, e, m, wal, id, name);
}

/// A put keeps what is staged located and sized, where stored bytes of its pieces' identities are
/// those pieces.
pub proof fn lemma_put_found(
    s: StoreView,
    t: StoreView,
    id: Seq<char>,
    contents: Seq<SpansView>,
    attrs: Seq<(Seq<char>, AttrView)>,
)
    requires
        engine::store_ok(s),
        staged_found(s),
        engine::put_outcome(s, t, id, contents, attrs, Ok(())),
        forall|k: int|
            0 <= k < contents.len() ==> engine_laws::genuine(
                t.writer.fold,
                (#[trigger] contents[k]).spans,
            ),
    ensures
        staged_found(t),
{
    engine_laws::lemma_put_admitted(s, id, contents, attrs);
    engine_laws::lemma_put_visible(s, t, id, contents, attrs, id);
    engine_laws::lemma_put_staged(s, t, id, contents, attrs);
    let (after, novel) = writer::folded_contents(
        s.parts,
        s.writer,
        contents,
        contents.len(),
    )->Ok_0;
    let rec = choose|rec: RecordView|
        {
            &&& #[trigger] engine::carved_record(id, contents, attrs, rec)
            &&& engine::log_outcome(s.wal, t.wal, engine::pending_seq(s), rec, novel, Ok(()))
            &&& t == StoreView {
                writer: after,
                wal: t.wal,
                mem: memtable::rows_put(s.mem, RowView { id, record: Some(rec) }),
                mem_bytes: engine::heavier(s.mem_bytes, engine::record_weight(rec)),
                ..s
            }
        };
    writer::lemma_folded_contents(s.parts, s.writer, contents, contents.len());
    engine_laws::lemma_contents_relocate(s.parts, s.writer, contents, contents.len());
    lemma_carved_found(s.parts, after, contents, rec.contents);
    assert forall|other: Seq<char>|
        (#[trigger] engine_read::staged_record(t.mem, other)) matches Some(r) implies all_found(
        t.parts,
        t.writer,
        (engine_read::staged_record(t.mem, other)->0).contents,
    ) by {
        memtable::lemma_put_lookup(s.mem, RowView { id, record: Some(rec) }, other);
        if other != id {
            let r = engine_read::staged_record(s.mem, other)->0;
            assert(all_found(s.parts, s.writer, r.contents));
            lemma_found_relocates(s.parts, s.writer, after, r.contents);
        }
    }
}

/// A deletion keeps what is staged located and sized.
pub proof fn lemma_delete_found(s: StoreView, t: StoreView, id: Seq<char>)
    requires
        engine::store_ok(s),
        staged_found(s),
        engine::delete_outcome(s, t, id, Ok(())),
    ensures
        staged_found(t),
{
    assert forall|other: Seq<char>|
        (#[trigger] engine_read::staged_record(t.mem, other)) matches Some(r) implies all_found(
        t.parts,
        t.writer,
        (engine_read::staged_record(t.mem, other)->0).contents,
    ) by {
        memtable::lemma_put_lookup(s.mem, RowView { id, record: None }, other);
        let r = engine_read::staged_record(s.mem, other)->0;
        assert(all_found(s.parts, s.writer, r.contents));
    }
}

/// Folding a batch keeps every located piece, and puts each of its pieces in the window.
pub proof fn lemma_items(s: StoreView, items: Seq<ItemView>, n: nat)
    requires
        engine::store_ok(s),
        n <= items.len(),
        carve::items_fault(items, s.write_limits, s.read_limits) is None,
        batch_apply::folded_items(s.parts, s.writer, items, n) is Ok,
    ensures
        ({
            let after = (batch_apply::folded_items(s.parts, s.writer, items, n)->Ok_0).0;
            &&& writer::keeps(s.writer, after)
            &&& engine_laws::relocates(s.parts, s.writer, after)
            &&& forall|i: int, j: int, k: int|
                0 <= i < n && (items[i] matches ItemView::Put { contents, .. } && 0 <= j
                    < contents.len() && 0 <= k < contents[j].spans.len() && admission::is_piece(
                    contents[j].spans[k],
                )) ==> writer::windowed(
                    after,
                    admission::span_bytes(
                        #[trigger] (#[trigger] items[i])->Put_contents[j].spans[k],
                    ),
                )
        }),
    decreases n,
{
    if n > 0 {
        lemma_items(s, items, (n - 1) as nat);
        let before = (batch_apply::folded_items(s.parts, s.writer, items, (n - 1) as nat)->Ok_0).0;
        let after = (batch_apply::folded_items(s.parts, s.writer, items, n)->Ok_0).0;
        batch_apply::lemma_item_admitted(items, s.write_limits, s.read_limits, n - 1);
        if let ItemView::Put { id, contents, attrs } = items[n - 1] {
            engine::lemma_admitted(
                contents,
                s.write_limits,
                s.read_limits,
                Some((n - 1) as usize),
                false,
            );
            writer::lemma_folded_contents(s.parts, before, contents, contents.len());
            engine_laws::lemma_contents_relocate(s.parts, before, contents, contents.len());
            engine_laws::lemma_relocates_trans(s.parts, s.writer, before, after);
            assert(writer::keeps(s.writer, after)) by {
                assert forall|x: Seq<u8>|
                    part::find_loc(s.writer.window, x) is Some implies #[trigger] part::find_loc(
                    after.window,
                    x,
                ) == part::find_loc(s.writer.window, x) by {
                    assert(part::find_loc(before.window, x) == part::find_loc(s.writer.window, x));
                }
                assert forall|loc: Loc, h: Seq<u8>|
                    fold::fold_read(s.writer.fold, loc, h) is Ok implies #[trigger] fold::fold_read(
                    after.fold,
                    loc,
                    h,
                ) == fold::fold_read(s.writer.fold, loc, h) by {
                    assert(fold::fold_read(before.fold, loc, h) == fold::fold_read(
                        s.writer.fold,
                        loc,
                        h,
                    ));
                }
            }
            assert forall|i: int, j: int, k: int|
                0 <= i < n && (items[i] matches ItemView::Put { contents, .. } && 0 <= j
                    < contents.len() && 0 <= k < contents[j].spans.len() && admission::is_piece(
                    contents[j].spans[k],
                )) implies writer::windowed(
                after,
                admission::span_bytes(
                    #[trigger] (#[trigger] items[i])->Put_contents[j].spans[k],
                ),
            ) by {
                let b = admission::span_bytes(items[i]->Put_contents[j].spans[k]);
                if i < n - 1 {
                    assert(writer::windowed(before, b));
                    let h = hash::blake3_digest(b);
                    assert(part::find_loc(after.window, h) == part::find_loc(before.window, h));
                    let loc = part::find_loc(before.window, h)->0;
                    assert(fold::fold_read(after.fold, loc, h) == fold::fold_read(
                        before.fold,
                        loc,
                        h,
                    ));
                } else {
                    assert(admission::is_piece(contents[j].spans[k]));
                }
            }
        }
    }
}

/// A batch keeps what is staged located and sized, where stored bytes of its pieces' identities
/// are those pieces.
pub proof fn lemma_apply_found(s: StoreView, t: StoreView, items: Seq<ItemView>)
    requires
        engine::store_ok(s),
        staged_found(s),
        batch_apply::apply_outcome(s, t, items, Ok(())),
        forall|i: int, j: int|
            0 <= i < items.len() && (items[i] matches ItemView::Put { contents, .. } && 0 <= j
                < contents.len()) ==> engine_laws::genuine(
                t.writer.fold,
                (#[trigger] (#[trigger] items[i])->Put_contents[j]).spans,
            ),
    ensures
        staged_found(t),
{
    if items.len() > 0 {
        let (after, news) = batch_apply::folded_items(
            s.parts,
            s.writer,
            items,
            items.len(),
        )->Ok_0;
        let members = choose|members: Seq<MemberView>|
            {
                &&& members.len() == items.len()
                &&& #[trigger] batch_apply::all_framed(items, news, members)
                &&& batch_apply::batch_log_outcome(
                    s.wal,
                    t.wal,
                    engine::pending_seq(s),
                    members,
                    Ok(()),
                )
                &&& t == StoreView {
                    writer: after,
                    wal: t.wal,
                    mem: batch_apply::staged(s.mem, members, members.len()),
                    mem_bytes: batch_apply::weighed(s.mem_bytes, members, members.len()),
                    ..s
                }
            };
        lemma_items(s, items, items.len());
        assert forall|other: Seq<char>|
            (#[trigger] engine_read::staged_record(t.mem, other)) matches Some(r) implies all_found(
            t.parts,
            t.writer,
            (engine_read::staged_record(t.mem, other)->0).contents,
        ) by {
            engine_laws::lemma_staged_lookup(s.mem, members, members.len(), other);
            match engine_laws::last_member(members, other, members.len()) {
                None => {
                    let r = engine_read::staged_record(s.mem, other)->0;
                    assert(all_found(s.parts, s.writer, r.contents));
                    lemma_found_relocates(s.parts, s.writer, after, r.contents);
                },
                Some(m) => {
                    let i = lemma_last_index(members, other, members.len());
                    assert(batch_apply::framed(items[i], news[i], members[i]));
                    if let ItemView::Put { id, contents, attrs } = items[i] {
                        assert forall|j: int, k: int|
                            0 <= j < contents.len() && 0 <= k < contents[j].spans.len()
                                && admission::is_piece(
                                #[trigger] contents[j].spans[k],
                            ) implies writer::windowed(
                            after,
                            admission::span_bytes(contents[j].spans[k]),
                        ) by {
                            assert(items[i]->Put_contents[j].spans[k] == contents[j].spans[k]);
                        }
                        assert forall|j: int| 0 <= j < contents.len() implies engine_laws::genuine(
                            after.fold,
                            (#[trigger] contents[j]).spans,
                        ) by {
                            assert(items[i]->Put_contents[j] == contents[j]);
                        }
                        lemma_carved_found(s.parts, after, contents, m.0.contents);
                    }
                },
            }
        }
    }
}

proof fn lemma_last_index(members: Seq<MemberView>, id: Seq<char>, n: nat) -> (i: int)
    requires
        n <= members.len(),
        engine_laws::last_member(members, id, n) is Some,
    ensures
        0 <= i < n,
        members[i] == engine_laws::last_member(members, id, n)->0,
    decreases n,
{
    if members[n - 1].0.id == id {
        n - 1
    } else {
        lemma_last_index(members, id, (n - 1) as nat)
    }
}

// ---------------------------------------------------------------------------------------------
// A merge beside staged records.
// ---------------------------------------------------------------------------------------------
proof fn lemma_located_same(
    a: Seq<PartView>,
    b: Seq<PartView>,
    f: FoldView,
    h: Seq<u8>,
    n: nat,
)
    requires
        n <= a.len(),
        n <= b.len(),
        forall|i: int| 0 <= i < n ==> a[i] == b[i],
    ensures
        writer::located_in(a, f, h, n) == writer::located_in(b, f, h, n),
    decreases n,
{
    if n > 0 {
        lemma_located_same(a, b, f, h, (n - 1) as nat);
    }
}

/// Newer parts are asked first.
pub proof fn lemma_located_joined(a: Seq<PartView>, b: Seq<PartView>, f: FoldView, h: Seq<u8>, n: nat)
    requires
        n <= b.len(),
    ensures
        writer::located_in(a + b, f, h, a.len() + n) == (match writer::located_in(b, f, h, n) {
            Ok(None) => writer::located_in(a, f, h, a.len()),
            other => other,
        }),
    decreases n,
{
    if n == 0 {
        lemma_located_same(a + b, a, f, h, a.len());
    } else {
        lemma_located_joined(a, b, f, h, (n - 1) as nat);
        assert((a + b)[a.len() + n - 1] == b[n - 1]);
    }
}

proof fn lemma_located_entry(parts: Seq<PartView>, f: FoldView, h: Seq<u8>, n: nat) -> (q: int)
    requires
        n <= parts.len(),
        writer::located_in(parts, f, h, n) matches Ok(Some(_)),
    ensures
        0 <= q < n,
        part::find_loc(parts[q].pieces, h) == Some((writer::located_in(parts, f, h, n)->Ok_0)->0),
        fold::fold_read(f, (writer::located_in(parts, f, h, n)->Ok_0)->0, h) is Ok,
    decreases n,
{
    match part::find_loc(parts[n - 1].pieces, h) {
        None => lemma_located_entry(parts, f, h, (n - 1) as nat),
        Some(loc) => if fold::in_ranges(f.punched, loc.block_id) {
            lemma_located_entry(parts, f, h, (n - 1) as nat)
        } else {
            n - 1
        },
    }
}

/// Whatever the parts located, they locate after a merge, at a place that reads.
pub proof fn lemma_merge_locates(s: StoreView, lo: int, len: int, p: PlanView, x: PartView, h: Seq<u8>)
    requires
        0 <= lo,
        publish::mergeable(s, lo, len),
        publish::merge_plan(s, lo, len) == Ok::<PlanView, PublishError>(p),
        x.pieces == p.pieces,
        writer::located_in(s.parts, s.writer.fold, h, s.parts.len()) matches Ok(Some(_)),
    ensures
        ({
            let parts = publish::spliced(s.parts, lo as nat, len as nat, x);
            &&& writer::located_in(parts, s.writer.fold, h, parts.len()) matches Ok(Some(loc))
            &&& fold::fold_read(s.writer.fold, loc, h) is Ok
        }),
{
    let f = s.writer.fold;
    let hi = lo + len;
    let a = s.parts.take(lo);
    let run = s.parts.subrange(lo, hi);
    let b = s.parts.skip(hi);
    let one = seq![x];
    let parts = publish::spliced(s.parts, lo as nat, len as nat, x);
    assert(s.parts =~= (a + run) + b);
    assert(parts =~= (a + one) + b);
    lemma_located_joined(a + run, b, f, h, b.len());
    lemma_located_joined(a, run, f, h, run.len());
    lemma_located_joined(a + one, b, f, h, b.len());
    lemma_located_joined(a, one, f, h, one.len());
    publish_laws::lemma_merged_dictionary(s.parts, f, lo, hi, lo);
    assert(writer::located_in(one, f, h, 0) == Ok::<Option<Loc>, FoldError>(None));
    assert(one[0] == x);
    if part::find_loc(x.pieces, h) is Some {
        assert(fold::fold_read(f, part::find_loc(x.pieces, h)->0, h) is Ok);
    }
    if writer::located_in(b, f, h, b.len()) == Ok::<Option<Loc>, FoldError>(None)
        && writer::located_in(run, f, h, run.len()) != Ok::<Option<Loc>, FoldError>(None) {
        let q = lemma_located_entry(run, f, h, run.len());
        let loc = (writer::located_in(run, f, h, run.len())->Ok_0)->0;
        assert(run[q] == s.parts[lo + q]);
        publish_laws::lemma_merged_dictionary(s.parts, f, lo, hi, lo + q);
        writer::lemma_find_loc(s.parts[lo + q].pieces, h);
        let i = choose|i: int|
            0 <= i < s.parts[lo + q].pieces.len() && #[trigger] s.parts[lo + q].pieces[i] == (
                h,
                loc,
            );
        assert(fold::fold_read(f, s.parts[lo + q].pieces[i].1, s.parts[lo + q].pieces[i].0) is Ok);
        assert(part::find_loc(x.pieces, h) is Some);
    }
    writer::lemma_located_in(parts, f, h, parts.len());
}

proof fn lemma_merge_program(
    s: StoreView,
    lo: int,
    len: int,
    p: PlanView,
    x: PartView,
    w: WriterView,
    ops: Seq<OpView>,
)
    requires
        0 <= lo,
        publish::mergeable(s, lo, len),
        publish::merge_plan(s, lo, len) == Ok::<PlanView, PublishError>(p),
        x.pieces == p.pieces,
        publish_laws::agreeing(s.writer.fold),
        w.fold == s.writer.fold,
        w.window == s.writer.window,
        engine_read::staged_program(s.parts, s.writer, ops) is Ok,
    ensures
        engine_read::staged_program(
            publish::spliced(s.parts, lo as nat, len as nat, x),
            w,
            ops,
        ) == engine_read::staged_program(s.parts, s.writer, ops),
    decreases ops.len(),
{
    if ops.len() > 0 {
        lemma_merge_program(s, lo, len, p, x, w, ops.drop_last());
        if let OpView::Piece { hash, len: _ } = ops.last() {
            let f = s.writer.fold;
            let loc = (writer::located_piece(s.parts, f, s.writer.window, hash)->Ok_0)->0;
            assert(fold::fold_read(f, loc, hash) is Ok);
            if part::find_loc(s.writer.window, hash) is None {
                lemma_merge_locates(s, lo, len, p, x, hash);
                let parts = publish::spliced(s.parts, lo as nat, len as nat, x);
                let moved = (writer::located_in(parts, f, hash, parts.len())->Ok_0)->0;
                assert(fold::fold_read(f, moved, hash) == fold::fold_read(f, loc, hash));
            }
        }
    }
}

/// A merge changes no value that could be read, staged or committed, where stored bytes of one
/// identity are the same.
pub proof fn lemma_merge_keeps_values(
    s: StoreView,
    lo: int,
    len: int,
    p: PlanView,
    e: EncodedPart,
    m: ManifestView,
    id: Seq<char>,
    name: Seq<char>,
)
    requires
        engine::store_ok(s),
        0 <= lo,
        publish::mergeable(s, lo, len),
        publish::merge_plan(s, lo, len) == Ok::<PlanView, PublishError>(p),
        publish_laws::agreeing(s.writer.fold),
        engine_read::value(s, id, name) is Ok,
    ensures
        engine_read::value(publish::published_store(s, p, e, m, s.wal), id, name)
            == engine_read::value(s, id, name),
{
    let t = publish::published_store(s, p, e, m, s.wal);
    let x = publish::plan_part(p, e.sections, e.section_bytes);
    assert(t.parts == publish::spliced(s.parts, lo as nat, len as nat, x));
    match memtable::row_at(s.mem, id) {
        None => {
            publish_laws::lemma_merge_value(s, lo, len, p, e, m, id, name);
        },
        Some(row) => {
            if let Some(r) = row.record {
                if let Some(c) = part::content_named(r.contents, name) {
                    lemma_merge_program(s, lo, len, p, x, t.writer, c.ops);
                }
            }
        },
    }
}

/// A merge keeps what is staged located and sized, where stored bytes of one identity are the same.
pub proof fn lemma_merge_found(
    s: StoreView,
    lo: int,
    len: int,
    p: PlanView,
    e: EncodedPart,
    m: ManifestView,
)
    requires
        engine::store_ok(s),
        staged_found(s),
        0 <= lo,
        publish::mergeable(s, lo, len),
        publish::merge_plan(s, lo, len) == Ok::<PlanView, PublishError>(p),
        publish_laws::agreeing(s.writer.fold),
    ensures
        staged_found(publish::published_store(s, p, e, m, s.wal)),
{
    let t = publish::published_store(s, p, e, m, s.wal);
    let x = publish::plan_part(p, e.sections, e.section_bytes);
    let f = s.writer.fold;
    assert(t.parts == publish::spliced(s.parts, lo as nat, len as nat, x));
    assert forall|id: Seq<char>|
        (#[trigger] engine_read::staged_record(t.mem, id)) matches Some(r) implies all_found(
        t.parts,
        t.writer,
        (engine_read::staged_record(t.mem, id)->0).contents,
    ) by {
        let r = engine_read::staged_record(s.mem, id)->0;
        assert(all_found(s.parts, s.writer, r.contents));
        assert forall|k: int| 0 <= k < r.contents.len() implies found(
            t.parts,
            t.writer,
            (#[trigger] r.contents[k]).ops,
        ) by {
            let ops = r.contents[k].ops;
            assert(found(s.parts, s.writer, ops));
            assert forall|i: int| 0 <= i < ops.len() implies match #[trigger] ops[i] {
                OpView::Piece { hash, len } => writer::located_piece(
                    t.parts,
                    t.writer.fold,
                    t.writer.window,
                    hash,
                ) matches Ok(Some(loc)) && loc.raw == len,
                OpView::Lit(_) => true,
            } by {
                if let OpView::Piece { hash, len: size } = ops[i] {
                    if part::find_loc(s.writer.window, hash) is None {
                        let loc = (writer::located_in(s.parts, f, hash, s.parts.len())->Ok_0)->0;
                        writer::lemma_located_in(s.parts, f, hash, s.parts.len());
                        lemma_merge_locates(s, lo, len, p, x, hash);
                        let moved = (writer::located_in(t.parts, f, hash, t.parts.len())->Ok_0)->0;
                        assert(fold::fold_read(f, moved, hash) == fold::fold_read(f, loc, hash));
                        assert(fold::fold_read(f, moved, hash)->Ok_0.len() == moved.raw);
                        assert(fold::fold_read(f, loc, hash)->Ok_0.len() == loc.raw);
                    }
                }
            }
        }
    }
}

} // verus!
