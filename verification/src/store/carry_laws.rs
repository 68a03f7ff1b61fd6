//! What every step of a writer keeps: its log carries what it has staged.

use crate::fold;
use crate::fold::{FoldError, FoldView, Loc};
use crate::hash;
use crate::part;
use crate::part::PartView;
use crate::store::admission;
use crate::store::admission::{SpanView, SpansView};
use crate::store::batch_apply;
use crate::store::carve;
use crate::store::carve::ItemView;
use crate::store::charge_laws;
use crate::store::crash_laws;
use crate::store::engine;
use crate::store::engine::StoreView;
use crate::store::engine_laws;
use crate::store::log_laws;
use crate::store::log_laws::Entry;
use crate::store::logged_laws;
use crate::store::manifest::ManifestView;
use crate::store::publish;
use crate::store::publish::{EncodedPart, PlanView, PublishError};
use crate::store::publish_laws;
use crate::store::recover;
use crate::store::recover_laws;
use crate::store::settlement_laws;
use crate::store::staged_laws;
use crate::store::wal;
use crate::store::wal::FrameView;
use crate::store::wire;
use crate::store::writer;
use crate::store::writer::{Novel, WriterView};
use crate::types::AttrView;
use crate::varint;
use vstd::prelude::*;

verus! {

/// A store that has nothing in its window and nothing in its log has everything carried.
pub proof fn lemma_empty_carried(s: StoreView)
    requires
        s.mem.len() == 0,
        s.writer.window.len() == 0,
        s.wal.written() == 0,
        s.wal.buffered().len() == 0,
        s.wal.frames() == 0,
        s.wal.limits() == s.read_limits,
    ensures
        crash_laws::carried(Seq::empty(), s),
{
    assert(s.wal.buffered() =~= log_laws::log_wire(Seq::<Entry>::empty()).skip(0));
    let frames = log_laws::log_applied(Seq::<Entry>::empty());
    assert(frames.len() == 0);
    assert(s.mem =~= recover_laws::rows_of(s.manifest, frames, 0));
    assert forall|h: Seq<u8>| (#[trigger] part::find_loc(s.writer.window, h)) is None by {
        writer::lemma_find_loc(s.writer.window, h);
    }
}

/// Bytes behind the others to be written go behind the others of the log.
proof fn lemma_wired(log: Seq<Entry>, more: Seq<Entry>, e: Seq<u8>, s: StoreView, t: StoreView)
    requires
        crash_laws::wired(log, s),
        t.wal.written() == s.wal.written(),
        t.wal.buffered() == s.wal.buffered() + e,
        log_laws::log_wire(more) == log_laws::log_wire(log) + e,
    ensures
        crash_laws::wired(more, t),
{
    let at = s.wal.written() as int;
    assert(log_laws::log_wire(more).skip(at) =~= log_laws::log_wire(log).skip(at) + e);
}

/// One more admitted entry leaves a log that is admitted.
proof fn lemma_admitted(log: Seq<Entry>, e: Entry, s: StoreView, t: StoreView)
    requires
        crash_laws::admitted(log, s),
        log_laws::entry_ok(e, s.read_limits),
        t.read_limits == s.read_limits,
        t.wal.limits() == s.wal.limits(),
        t.wal.frames() == s.wal.frames() + log_laws::entry_frames(e),
        t.wal.frames() <= s.read_limits.max_wal_frames,
    ensures
        crash_laws::admitted(log.push(e), t),
{
    recover_laws::lemma_applied_append(log, e);
    let more = log.push(e);
    assert forall|i: int| 0 <= i < more.len() implies log_laws::entry_ok(
        #[trigger] more[i],
        s.read_limits,
    ) by {
        if i < log.len() {
            assert(more[i] == log[i]);
        }
    }
}

/// The same writer over the same parts and revision.
proof fn lemma_same_logged(s: StoreView, t: StoreView, w: WriterView, frames: Seq<FrameView>)
    requires
        t.parts == s.parts,
        t.manifest == s.manifest,
        t.read_limits == s.read_limits,
        t.writer == w,
        logged_laws::logged(crash_laws::as_view(s), w, frames),
    ensures
        logged_laws::logged(crash_laws::as_view(t), t.writer, frames),
{
    let a = crash_laws::as_view(s);
    let b = crash_laws::as_view(t);
    assert(logged_laws::over(a, w.fold) == logged_laws::over(b, w.fold));
    assert(logged_laws::window_logged(b, w, frames)) by {
        assert forall|h: Seq<u8>|
            (#[trigger] part::find_loc(w.window, h)) is Some implies match writer::located_in(
            b.parts,
            w.fold,
            h,
            b.parts.len(),
        ) {
            Err(_) => false,
            Ok(Some(_)) => true,
            Ok(None) => logged_laws::introduces(b.manifest, frames, h),
        } by {}
    }
}

/// An accepted put is carried: one frame with its record and its new pieces.
pub proof fn lemma_put_carried(
    s: StoreView,
    t: StoreView,
    id: Seq<char>,
    contents: Seq<SpansView>,
    attrs: Seq<(Seq<char>, AttrView)>,
    log: Seq<Entry>,
)
    requires
        engine::store_ok(s),
        crash_laws::carried(log, s),
        engine::put_outcome(s, t, id, contents, attrs, Ok(())),
        forall|k: int|
            0 <= k < contents.len() ==> engine_laws::genuine(
                t.writer.fold,
                (#[trigger] contents[k]).spans,
            ),
    ensures
        exists|fr: FrameView|
            #[trigger] crash_laws::carried(log.push(Entry::One(fr)), t) && fr.seq
                == engine::pending_seq(s) && engine::carved_record(id, contents, attrs, fr.record),
{
    recover_laws::lemma_put_logged(s, t, id, contents, attrs, log);
    engine_laws::lemma_put_admitted(s, id, contents, attrs);
    let fr = choose|fr: FrameView|
        {
            &&& #[trigger] recover_laws::covers(log.push(Entry::One(fr)), t)
            &&& fr.seq == engine::pending_seq(s)
            &&& !fr.tomb
            &&& engine::carved_record(id, contents, attrs, fr.record)
            &&& writer::folded_contents(s.parts, s.writer, contents, contents.len()) == Ok::<
                (WriterView, Novel),
                writer::StageError,
            >((t.writer, fr.novel))
            &&& recover_laws::fits(fr)
            &&& t.wal.frames() == s.wal.frames() + 1
            &&& t.wal.limits() == s.wal.limits()
            &&& t.wal.buffered() == s.wal.buffered() + log_laws::entry_wire(Entry::One(fr))
            &&& log_laws::log_wire(log.push(Entry::One(fr))) == log_laws::log_wire(log)
                + log_laws::entry_wire(Entry::One(fr))
        };
    let frames = log_laws::log_applied(log);
    let v = crash_laws::as_view(s);
    logged_laws::lemma_push_record(v, s.writer, t.writer, frames, fr, contents);
    recover_laws::lemma_applied_append(log, Entry::One(fr));
    assert(log_laws::log_applied(log.push(Entry::One(fr))) =~= frames.push(fr));
    lemma_put_frame(s, t, id, contents, attrs);
    lemma_same_logged(s, t, t.writer, frames.push(fr));
    lemma_wired(log, log.push(Entry::One(fr)), log_laws::entry_wire(Entry::One(fr)), s, t);
    charge_laws::lemma_record_loggable(
        s.parts,
        s.writer,
        id,
        contents,
        attrs,
        s.write_limits,
        s.read_limits,
        None,
        true,
        fr,
    );
    lemma_admitted(log, Entry::One(fr), s, t);
    assert(crash_laws::carried(log.push(Entry::One(fr)), t));
}

/// What a put leaves as it was.
proof fn lemma_put_frame(
    s: StoreView,
    t: StoreView,
    id: Seq<char>,
    contents: Seq<SpansView>,
    attrs: Seq<(Seq<char>, AttrView)>,
)
    requires
        engine::put_outcome(s, t, id, contents, attrs, Ok(())),
    ensures
        t.parts == s.parts,
        t.manifest == s.manifest,
        t.read_limits == s.read_limits,
        t.wal.written() == s.wal.written(),
{
}

/// An accepted deletion is carried: one frame.
pub proof fn lemma_delete_carried(s: StoreView, t: StoreView, id: Seq<char>, log: Seq<Entry>)
    requires
        engine::store_ok(s),
        crash_laws::carried(log, s),
        engine::delete_outcome(s, t, id, Ok(())),
    ensures
        ({
            let fr = FrameView {
                tomb: true,
                seq: engine::pending_seq(s),
                record: wal::bare_record(id),
                novel: Seq::empty(),
            };
            crash_laws::carried(log.push(Entry::One(fr)), t)
        }),
{
    let fr = FrameView {
        tomb: true,
        seq: engine::pending_seq(s),
        record: wal::bare_record(id),
        novel: Seq::empty(),
    };
    let frames = log_laws::log_applied(log);
    recover_laws::lemma_delete_logged(s, t, id, log);
    logged_laws::lemma_push_bare(crash_laws::as_view(s), s.writer, frames, fr);
    recover_laws::lemma_applied_append(log, Entry::One(fr));
    assert(log_laws::log_applied(log.push(Entry::One(fr))) =~= frames.push(fr));
    lemma_same_logged(s, t, s.writer, frames.push(fr));
    lemma_wired(log, log.push(Entry::One(fr)), log_laws::entry_wire(Entry::One(fr)), s, t);
    charge_laws::lemma_deletion_loggable(
        id,
        engine::pending_seq(s),
        s.write_limits,
        s.read_limits,
        None,
    );
    lemma_admitted(log, Entry::One(fr), s, t);
}

/// Fewer stored bytes share an identity with a span where fewer are stored.
proof fn lemma_genuine_less(f: FoldView, g: FoldView, spans: Seq<SpanView>)
    requires
        writer::extends(f, g),
        engine_laws::genuine(g, spans),
    ensures
        engine_laws::genuine(f, spans),
{
    assert forall|i: int, loc: Loc|
        0 <= i < spans.len() && admission::is_piece(spans[i]) implies match #[trigger] fold::fold_read(
        f,
        loc,
        hash::blake3_digest(admission::span_bytes(#[trigger] spans[i])),
    ) {
        Ok(x) => x == admission::span_bytes(spans[i]),
        Err(_) => true,
    } by {
        let h = hash::blake3_digest(admission::span_bytes(spans[i]));
        if fold::fold_read(f, loc, h) is Ok {
            assert(fold::fold_read(g, loc, h) == fold::fold_read(f, loc, h));
        }
    }
}

/// Folding more items of a batch reads what fewer did.
proof fn lemma_items_extend(s: StoreView, items: Seq<ItemView>, k: nat, n: nat)
    requires
        engine::store_ok(s),
        k <= n <= items.len(),
        carve::items_fault(items, s.write_limits, s.read_limits) is None,
        batch_apply::folded_items(s.parts, s.writer, items, n) is Ok,
    ensures
        batch_apply::folded_items(s.parts, s.writer, items, k) is Ok,
        writer::extends(
            (batch_apply::folded_items(s.parts, s.writer, items, k)->Ok_0).0.fold,
            (batch_apply::folded_items(s.parts, s.writer, items, n)->Ok_0).0.fold,
        ),
    decreases n,
{
    if k < n {
        lemma_items_extend(s, items, k, (n - 1) as nat);
        staged_laws::lemma_items(s, items, (n - 1) as nat);
        let at = (batch_apply::folded_items(s.parts, s.writer, items, k)->Ok_0).0;
        let before = (batch_apply::folded_items(s.parts, s.writer, items, (n - 1) as nat)->Ok_0).0;
        let after = (batch_apply::folded_items(s.parts, s.writer, items, n)->Ok_0).0;
        lemma_item_short(s, items, n - 1);
        if let ItemView::Put { id, contents, attrs } = items[n - 1] {
            writer::lemma_folded_contents(s.parts, before, contents, contents.len());
            assert forall|loc: Loc, h: Seq<u8>|
                fold::fold_read(at.fold, loc, h) is Ok implies #[trigger] fold::fold_read(
                after.fold,
                loc,
                h,
            ) == fold::fold_read(at.fold, loc, h) by {
                assert(fold::fold_read(before.fold, loc, h) == fold::fold_read(at.fold, loc, h));
            }
        }
    }
}

/// No piece of an admitted item is too long.
proof fn lemma_item_short(s: StoreView, items: Seq<ItemView>, i: int)
    requires
        0 <= i < items.len(),
        carve::items_fault(items, s.write_limits, s.read_limits) is None,
    ensures
        items[i] matches ItemView::Put { contents, .. } ==> forall|j: int|
            0 <= j < contents.len() ==> !admission::any_too_long((#[trigger] contents[j]).spans),
{
    batch_apply::lemma_item_admitted(items, s.write_limits, s.read_limits, i);
    if let ItemView::Put { id, contents, attrs } = items[i] {
        engine::lemma_admitted(contents, s.write_limits, s.read_limits, Some(i as usize), false);
    }
}

proof fn lemma_items_carried(
    s: StoreView,
    items: Seq<ItemView>,
    before: Seq<FrameView>,
    frames: Seq<FrameView>,
    after: WriterView,
    n: nat,
)
    requires
        engine::store_ok(s),
        n <= items.len(),
        frames.len() == items.len(),
        carve::items_fault(items, s.write_limits, s.read_limits) is None,
        logged_laws::logged(crash_laws::as_view(s), s.writer, before),
        recover::is_pending(s.manifest, engine::pending_seq(s)),
        recover_laws::frames_of(s, after, items, frames),
        forall|i: int, j: int|
            0 <= i < items.len() && (items[i] matches ItemView::Put { contents, .. } && 0 <= j
                < contents.len()) ==> engine_laws::genuine(
                after.fold,
                (#[trigger] (#[trigger] items[i])->Put_contents[j]).spans,
            ),
    ensures
        batch_apply::folded_items(s.parts, s.writer, items, n) is Ok,
        logged_laws::logged(
            crash_laws::as_view(s),
            (batch_apply::folded_items(s.parts, s.writer, items, n)->Ok_0).0,
            before + frames.take(n as int),
        ),
    decreases n,
{
    lemma_items_extend(s, items, n, items.len());
    if n == 0 {
        assert(before + frames.take(0) =~= before);
    } else {
        lemma_items_carried(s, items, before, frames, after, (n - 1) as nat);
        let v = crash_laws::as_view(s);
        let (w, news) = batch_apply::folded_items(s.parts, s.writer, items, (n - 1) as nat)->Ok_0;
        let (x, more) = batch_apply::folded_items(s.parts, s.writer, items, n)->Ok_0;
        let fr = frames[n - 1];
        let so_far = before + frames.take(n - 1);
        assert(before + frames.take(n as int) =~= so_far.push(fr));
        staged_laws::lemma_items(s, items, (n - 1) as nat);
        lemma_news(s, items, n, items.len());
        let all = (batch_apply::folded_items(s.parts, s.writer, items, items.len())->Ok_0).1;
        assert(all[n - 1] == more[n - 1]);
        assert(batch_apply::framed(items[n - 1], all[n - 1], (fr.record, fr.novel, fr.tomb)));
        match items[n - 1] {
            ItemView::Delete { id } => {
                logged_laws::lemma_push_bare(v, w, so_far, fr);
            },
            ItemView::Put { id, contents, attrs } => {
                lemma_item_short(s, items, n - 1);
                assert(more[n - 1] == fr.novel);
                assert forall|i: int| 0 <= i < contents.len() implies !admission::any_too_long(
                    (#[trigger] contents[i]).spans,
                ) && engine_laws::genuine(x.fold, contents[i].spans) by {
                    assert(items[n - 1]->Put_contents[i] == contents[i]);
                    lemma_genuine_less(x.fold, after.fold, contents[i].spans);
                }
                logged_laws::lemma_push_record(v, w, x, so_far, fr, contents);
            },
        }
    }
}

/// What fewer items introduced is what the first of more introduced.
proof fn lemma_news(s: StoreView, items: Seq<ItemView>, k: nat, n: nat)
    requires
        k <= n <= items.len(),
        batch_apply::folded_items(s.parts, s.writer, items, n) is Ok,
    ensures
        batch_apply::folded_items(s.parts, s.writer, items, k) is Ok,
        (batch_apply::folded_items(s.parts, s.writer, items, k)->Ok_0).1.len() == k,
        (batch_apply::folded_items(s.parts, s.writer, items, n)->Ok_0).1.len() == n,
        forall|i: int|
            0 <= i < k ==> (batch_apply::folded_items(s.parts, s.writer, items, n)->Ok_0).1[i] == (
            batch_apply::folded_items(s.parts, s.writer, items, k)->Ok_0).1[i],
    decreases n,
{
    if k < n {
        lemma_news(s, items, k, (n - 1) as nat);
    } else if n > 0 {
        lemma_news(s, items, (n - 1) as nat, (n - 1) as nat);
    }
}

/// The frames of an accepted batch are admitted by whoever reads under the same limits.
proof fn lemma_batch_ok(
    s: StoreView,
    after: WriterView,
    items: Seq<ItemView>,
    frames: Seq<FrameView>,
)
    requires
        engine::store_ok(s),
        items.len() > 0,
        items.len() <= usize::MAX,
        frames.len() == items.len(),
        carve::items_fault(items, s.write_limits, s.read_limits) is None,
        recover_laws::frames_of(s, after, items, frames),
        forall|i: int| 0 <= i < frames.len() ==> recover_laws::fits(#[trigger] frames[i]),
    ensures
        log_laws::batch_ok(engine::pending_seq(s), frames, s.read_limits),
{
    let (w, all) = batch_apply::folded_items(s.parts, s.writer, items, items.len())->Ok_0;
    assert forall|i: int| 0 <= i < frames.len() implies log_laws::loggable(
        #[trigger] frames[i],
        s.read_limits,
    ) by {
        let fr = frames[i];
        batch_apply::lemma_item_admitted(items, s.write_limits, s.read_limits, i);
        lemma_news(s, items, (i + 1) as nat, items.len());
        assert(recover_laws::fits(fr));
        assert(batch_apply::framed(items[i], all[i], (fr.record, fr.novel, fr.tomb)));
        match items[i] {
            ItemView::Delete { id } => {
                charge_laws::lemma_deletion_loggable(
                    id,
                    fr.seq,
                    s.write_limits,
                    s.read_limits,
                    Some(i as usize),
                );
            },
            ItemView::Put { id, contents, attrs } => {
                lemma_item_short(s, items, i);
                lemma_news(s, items, i as nat, items.len());
                let before = (batch_apply::folded_items(s.parts, s.writer, items, i as nat)->Ok_0).0;
                charge_laws::lemma_record_loggable(
                    s.parts,
                    before,
                    id,
                    contents,
                    attrs,
                    s.write_limits,
                    s.read_limits,
                    Some(i as usize),
                    false,
                    fr,
                );
            },
        }
    }
    batch_apply::lemma_item_admitted(items, s.write_limits, s.read_limits, 0);
    varint::lemma_varint_len(items.len());
    varint::lemma_varint_len_bound(items.len());
    charge_laws::lemma_marker_admitted(items, s.write_limits, s.read_limits);
}

/// An accepted batch is carried: one frame for each item, and its completion.
pub proof fn lemma_apply_carried(s: StoreView, t: StoreView, items: Seq<ItemView>, log: Seq<Entry>)
    requires
        engine::store_ok(s),
        crash_laws::carried(log, s),
        items.len() > 0,
        batch_apply::apply_outcome(s, t, items, Ok(())),
        forall|i: int, j: int|
            0 <= i < items.len() && (items[i] matches ItemView::Put { contents, .. } && 0 <= j
                < contents.len()) ==> engine_laws::genuine(
                t.writer.fold,
                (#[trigger] (#[trigger] items[i])->Put_contents[j]).spans,
            ),
    ensures
        exists|frames: Seq<FrameView>|
            frames.len() == items.len() && #[trigger] crash_laws::carried(
                log.push(Entry::Batch { seq: engine::pending_seq(s), members: frames }),
                t,
            ),
{
    recover_laws::lemma_apply_logged(s, t, items, log);
    let seq = engine::pending_seq(s);
    let frames = choose|frames: Seq<FrameView>|
        {
            &&& frames.len() == items.len()
            &&& #[trigger] recover_laws::covers(
                log.push(Entry::Batch { seq: engine::pending_seq(s), members: frames }),
                t,
            )
            &&& recover_laws::frames_of(s, t.writer, items, frames)
            &&& forall|i: int|
                0 <= i < frames.len() ==> recover_laws::fits(#[trigger] frames[i])
            &&& t.wal.written() == s.wal.written()
            &&& t.wal.frames() == s.wal.frames() + items.len() + 1
            &&& t.wal.limits() == s.wal.limits()
            &&& t.wal.buffered() == s.wal.buffered() + log_laws::entry_wire(
                Entry::Batch { seq: engine::pending_seq(s), members: frames },
            )
        };
    let e = Entry::Batch { seq, members: frames };
    let before = log_laws::log_applied(log);
    lemma_items_carried(s, items, before, frames, t.writer, items.len());
    assert(frames.take(items.len() as int) =~= frames);
    recover_laws::lemma_applied_append(log, e);
    assert(log_laws::log_applied(log.push(e)) =~= before + frames);
    lemma_same_logged(s, t, t.writer, before + frames);
    lemma_wired(log, log.push(e), log_laws::entry_wire(e), s, t);
    lemma_batch_ok(s, t.writer, items, frames);
    lemma_admitted(log, e, s, t);
    assert(crash_laws::carried(log.push(e), t));
}

/// A store that wrote its log has it all written.
pub proof fn lemma_sync_carried(s: StoreView, t: StoreView, log: Seq<Entry>)
    requires
        crash_laws::carried(log, s),
        t == (StoreView { wal: t.wal, ..s }),
        t.wal.written() == s.wal.written() + s.wal.buffered().len(),
        t.wal.buffered().len() == 0,
        t.wal.frames() == s.wal.frames(),
        t.wal.limits() == s.wal.limits(),
    ensures
        crash_laws::carried(log, t),
        t.wal.written() == log_laws::log_wire(log).len(),
{
    lemma_moved_logged(s, t, log);
    assert(t.wal.buffered() =~= log_laws::log_wire(log).skip(t.wal.written() as int));
}

/// A store that acknowledged its container or sealed its blocks has everything carried as before.
pub proof fn lemma_moved_carried(s: StoreView, t: StoreView, log: Seq<Entry>)
    requires
        crash_laws::carried(log, s),
        t == (StoreView {
            writer: WriterView { sealed: t.writer.sealed, ..s.writer },
            unsynced: t.unsynced,
            ..s
        }),
    ensures
        crash_laws::carried(log, t),
{
    lemma_moved_logged(s, t, log);
}

proof fn lemma_moved_logged(s: StoreView, t: StoreView, log: Seq<Entry>)
    requires
        crash_laws::staged_logged(log, s),
        recover_laws::covers(log, s),
        t.writer.fold == s.writer.fold,
        t.writer.window == s.writer.window,
        t.parts == s.parts,
        t.manifest == s.manifest,
        t.mem == s.mem,
    ensures
        crash_laws::staged_logged(log, t),
        recover_laws::covers(log, t),
{
    let frames = log_laws::log_applied(log);
    let a = crash_laws::as_view(s);
    let b = crash_laws::as_view(t);
    let f = s.writer.fold;
    assert(logged_laws::over(a, f) == a);
    assert(logged_laws::over(b, f) == b);
    logged_laws::lemma_extends_serves(s.parts, f, f);
    logged_laws::lemma_walk_order(a, frames, frames.len());
    logged_laws::lemma_walk_served(a, b, frames, frames.len());
    assert forall|i: int, j: int| 0 <= i < frames.len() && 0 <= j
        < frames[i].novel.len() implies logged_laws::piece_stored(
        t.parts,
        t.writer,
        (#[trigger] frames[i].novel[j]).0,
        frames[i].novel[j].1,
    ) by {
        assert(logged_laws::piece_stored(
            s.parts,
            s.writer,
            frames[i].novel[j].0,
            frames[i].novel[j].1,
        ));
    }
    assert forall|h: Seq<u8>|
        (#[trigger] part::find_loc(t.writer.window, h)) is Some implies match writer::located_in(
        t.parts,
        f,
        h,
        t.parts.len(),
    ) {
        Err(_) => false,
        Ok(Some(_)) => true,
        Ok(None) => logged_laws::introduces(t.manifest, frames, h),
    } by {}
}

// ---------------------------------------------------------------------------------------------
// Publications.
// ---------------------------------------------------------------------------------------------
/// After a merge the parts locate no piece wrongly that they located or did not have.
proof fn lemma_merge_unlocated(
    s: StoreView,
    lo: int,
    len: int,
    p: PlanView,
    x: PartView,
    h: Seq<u8>,
)
    requires
        0 <= lo,
        publish::mergeable(s, lo, len),
        publish::merge_plan(s, lo, len) == Ok::<PlanView, PublishError>(p),
        x.pieces == p.pieces,
        writer::located_in(s.parts, s.writer.fold, h, s.parts.len()) == Ok::<
            Option<Loc>,
            FoldError,
        >(None),
    ensures
        ({
            let parts = publish::spliced(s.parts, lo as nat, len as nat, x);
            writer::located_in(parts, s.writer.fold, h, parts.len()) is Ok
        }),
{
    let f = s.writer.fold;
    let hi = lo + len;
    let a = s.parts.take(lo);
    let run = s.parts.subrange(lo, hi);
    let b = s.parts.skip(hi);
    let one = seq![x];
    let parts = publish::spliced(s.parts, lo as nat, len as nat, x);
    assert(s.parts =~= (a + run) + b);
    assert(parts =~= (a + one) + b);
    staged_laws::lemma_located_joined(a + run, b, f, h, b.len());
    staged_laws::lemma_located_joined(a, run, f, h, run.len());
    staged_laws::lemma_located_joined(a + one, b, f, h, b.len());
    staged_laws::lemma_located_joined(a, one, f, h, one.len());
    publish_laws::lemma_merged_dictionary(s.parts, f, lo, hi, lo);
    assert(writer::located_in(one, f, h, 0) == Ok::<Option<Loc>, FoldError>(None));
    assert(one[0] == x);
    if part::find_loc(x.pieces, h) is Some {
        assert(fold::fold_read(f, part::find_loc(x.pieces, h)->0, h) is Ok);
    }
}

/// After a merge the parts serve what they served, where stored bytes of one identity are the same.
proof fn lemma_merge_serves(s: StoreView, lo: int, len: int, p: PlanView, x: PartView)
    requires
        0 <= lo,
        publish::mergeable(s, lo, len),
        publish::merge_plan(s, lo, len) == Ok::<PlanView, PublishError>(p),
        x.pieces == p.pieces,
        publish_laws::agreeing(s.writer.fold),
    ensures
        logged_laws::serves(
            s.parts,
            s.writer.fold,
            publish::spliced(s.parts, lo as nat, len as nat, x),
            s.writer.fold,
        ),
{
    let f = s.writer.fold;
    let parts = publish::spliced(s.parts, lo as nat, len as nat, x);
    assert forall|h: Seq<u8>|
        (#[trigger] writer::located_in(s.parts, f, h, s.parts.len())) matches Ok(
            Some(loc),
        ) implies (writer::located_in(parts, f, h, parts.len()) matches Ok(Some(at))
        && fold::fold_read(f, at, h) == fold::fold_read(
        f,
        (writer::located_in(s.parts, f, h, s.parts.len())->Ok_0)->0,
        h,
    )) by {
        staged_laws::lemma_merge_locates(s, lo, len, p, x, h);
        writer::lemma_located_in(s.parts, f, h, s.parts.len());
    }
}

/// Revisions of one sequence judge frames alike.
proof fn lemma_same_sequence(a: ManifestView, b: ManifestView, frames: Seq<FrameView>)
    requires
        b.next_seq == a.next_seq,
        b.commit != 0,
        logged_laws::in_order(a, frames, frames.len()),
    ensures
        logged_laws::in_order(b, frames, frames.len()),
        forall|i: int|
            0 <= i < frames.len() ==> (recover::redundant(a, (#[trigger] frames[i]).seq)
                <==> recover::redundant(b, frames[i].seq)),
{
    assert forall|i: int| 0 <= i < frames.len() implies (recover::redundant(
        a,
        (#[trigger] frames[i]).seq,
    ) <==> recover::redundant(b, frames[i].seq)) && (recover::redundant(b, frames[i].seq)
        || recover::is_pending(b, frames[i].seq)) by {
        assert(recover::redundant(a, frames[i].seq) || recover::is_pending(a, frames[i].seq));
    }
    assert forall|i: int, j: int|
        0 <= i < j < frames.len() && recover::redundant(
            b,
            (#[trigger] frames[j]).seq,
        ) implies recover::redundant(b, (#[trigger] frames[i]).seq) by {
        assert(recover::redundant(a, frames[j].seq));
        assert(recover::redundant(a, frames[i].seq));
    }
}

/// A merge keeps everything carried, where stored bytes of one identity are the same.
pub proof fn lemma_merge_carried(
    s: StoreView,
    lo: int,
    len: int,
    p: PlanView,
    e: EncodedPart,
    m: ManifestView,
    log: Seq<Entry>,
)
    requires
        engine::store_ok(s),
        crash_laws::carried(log, s),
        0 <= lo,
        publish::mergeable(s, lo, len),
        publish::merge_plan(s, lo, len) == Ok::<PlanView, PublishError>(p),
        m.next_seq == s.manifest.next_seq,
        m.commit != 0,
        publish_laws::agreeing(s.writer.fold),
    ensures
        crash_laws::carried(log, publish::published_store(s, p, e, m, s.wal)),
{
    let t = publish::published_store(s, p, e, m, s.wal);
    let x = publish::plan_part(p, e.sections, e.section_bytes);
    let f = s.writer.fold;
    let frames = log_laws::log_applied(log);
    let a = crash_laws::as_view(s);
    let b = crash_laws::as_view(t);
    assert(t.parts == publish::spliced(s.parts, lo as nat, len as nat, x));
    assert(t.writer == s.writer);
    settlement_laws::lemma_same_sequence_covers(s, t, log);
    lemma_merge_serves(s, lo, len, p, x);
    assert(logged_laws::over(a, f) == a);
    assert(logged_laws::over(b, f) == b);
    logged_laws::lemma_walk_order(a, frames, frames.len());
    lemma_same_sequence(s.manifest, m, frames);
    logged_laws::lemma_walk_served(a, b, frames, frames.len());
    assert forall|i: int, j: int| 0 <= i < frames.len() && 0 <= j
        < frames[i].novel.len() implies logged_laws::piece_stored(
        t.parts,
        t.writer,
        (#[trigger] frames[i].novel[j]).0,
        frames[i].novel[j].1,
    ) by {
        let h = frames[i].novel[j].0;
        assert(logged_laws::piece_stored(s.parts, s.writer, h, frames[i].novel[j].1));
        if part::find_loc(s.writer.window, h) is None {
            assert(writer::located_in(s.parts, f, h, s.parts.len()) matches Ok(Some(_)));
        }
    }
    assert forall|h: Seq<u8>|
        (#[trigger] part::find_loc(t.writer.window, h)) is Some implies match writer::located_in(
        t.parts,
        f,
        h,
        t.parts.len(),
    ) {
        Err(_) => false,
        Ok(Some(_)) => true,
        Ok(None) => logged_laws::introduces(m, frames, h),
    } by {
        if writer::located_in(s.parts, f, h, s.parts.len()) == Ok::<Option<Loc>, FoldError>(None) {
            lemma_merge_unlocated(s, lo, len, p, x, h);
            let i = choose|i: int|
                0 <= i < frames.len() && !recover::redundant(
                    s.manifest,
                    (#[trigger] frames[i]).seq,
                ) && wire::find_novel(frames[i].novel, h) is Some;
            assert(!recover::redundant(m, frames[i].seq));
        }
    }
}

/// After a flush the parts serve what they served, where stored bytes of one identity are the same.
proof fn lemma_flush_serves(s: StoreView, p: PlanView, x: PartView)
    requires
        writer::writer_ok(s.writer),
        publish::flush_plan(s) == Ok::<PlanView, PublishError>(p),
        x.pieces == p.pieces,
        publish_laws::agreeing(s.writer.fold),
    ensures
        logged_laws::serves(
            s.parts,
            s.writer.fold,
            publish::spliced(s.parts, s.parts.len(), 0, x),
            s.writer.fold,
        ),
{
    let f = s.writer.fold;
    let parts = publish::spliced(s.parts, s.parts.len(), 0, x);
    assert(parts =~= s.parts + seq![x]);
    publish_laws::lemma_dict_rows(s.parts, s.writer, s.mem, s.mem.len(), -1, 0);
    assert forall|h: Seq<u8>|
        (#[trigger] writer::located_in(s.parts, f, h, s.parts.len())) matches Ok(
            Some(loc),
        ) implies (writer::located_in(parts, f, h, parts.len()) matches Ok(Some(at))
        && fold::fold_read(f, at, h) == fold::fold_read(
        f,
        (writer::located_in(s.parts, f, h, s.parts.len())->Ok_0)->0,
        h,
    )) by {
        staged_laws::lemma_located_joined(s.parts, seq![x], f, h, 1);
        assert(writer::located_in(seq![x], f, h, 0) == Ok::<Option<Loc>, FoldError>(None));
        writer::lemma_located_in(s.parts, f, h, s.parts.len());
        if part::find_loc(x.pieces, h) is Some {
            writer::lemma_located_reads(s.parts, s.writer, h);
        }
    }
}

/// The log that carried what was flushed replays over the store that flushed it, so that the store
/// opens again wherever a crash comes before the log is cut.
pub proof fn lemma_flush_replays(
    s: StoreView,
    p: PlanView,
    e: EncodedPart,
    m: ManifestView,
    log: Seq<Entry>,
)
    requires
        engine::store_ok(s),
        crash_laws::staged_logged(log, s),
        forall|i: int|
            0 <= i < log_laws::log_applied(log).len() ==> (
            #[trigger] log_laws::log_applied(log)[i]).seq == engine::pending_seq(s),
        publish::flush_plan(s) == Ok::<PlanView, PublishError>(p),
        m.next_seq == p.seq_hi,
        m.commit != 0,
        publish_laws::agreeing(s.writer.fold),
    ensures
        crash_laws::replays(log, publish::published_store(s, p, e, m, s.wal)),
{
    let t = publish::published_store(s, p, e, m, s.wal);
    let x = publish::plan_part(p, e.sections, e.section_bytes);
    let frames = log_laws::log_applied(log);
    crash_laws::lemma_logged_replays(log, s);
    lemma_flush_serves(s, p, x);
    logged_laws::lemma_walk_served(
        crash_laws::as_view(s),
        crash_laws::as_view(t),
        frames,
        frames.len(),
    );
}

/// A flush whose log was cut has everything carried: nothing is staged, and nothing is logged.
pub proof fn lemma_flush_carried(
    s: StoreView,
    p: PlanView,
    e: EncodedPart,
    m: ManifestView,
    t: StoreView,
)
    requires
        publish::flush_plan(s) == Ok::<PlanView, PublishError>(p),
        t == (StoreView {
            wal: t.wal,
            unsynced: t.unsynced,
            ..publish::published_store(s, p, e, m, s.wal)
        }),
        t.wal.written() == 0,
        t.wal.buffered().len() == 0,
        t.wal.frames() == 0,
        t.wal.limits() == s.read_limits,
    ensures
        crash_laws::carried(Seq::empty(), t),
{
    lemma_empty_carried(t);
}

} // verus!
