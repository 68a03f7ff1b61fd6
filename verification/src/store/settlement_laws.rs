//! What publication and the log keep between them: at every point of a flush, whatever was logged
//! is in the container, or still in the log.

use crate::container::ContainerView;
use crate::memtable;
use crate::store::commit::CommitOutcome;
use crate::store::engine;
use crate::store::engine::StoreView;
use crate::store::engine_read;
use crate::store::lifecycle;
use crate::store::lifecycle::CloseStep;
use crate::store::log_laws;
use crate::store::log_laws::Entry;
use crate::store::manifest::{ManifestView, PartRefView};
use crate::store::open;
use crate::store::open::ReadStoreView;
use crate::store::publish;
use crate::store::publish::{EncodedPart, PlanView, PublishError};
use crate::store::publish_laws;
use crate::store::recover;
use crate::store::recover::StoreOptions;
use crate::store::recover_laws;
use crate::store::wal;
use crate::store::wal::FrameView;
use vstd::prelude::*;

verus! {

proof fn lemma_rows_published(m: ManifestView, frames: Seq<FrameView>, n: nat)
    requires
        n <= frames.len(),
    ensures
        recover_laws::rows_of(m, frames, n).len() == 0 <==> (forall|i: int|
            0 <= i < n ==> recover::redundant(m, (#[trigger] frames[i]).seq)),
    decreases n,
{
    if n > 0 {
        lemma_rows_published(m, frames, (n - 1) as nat);
        let before = recover_laws::rows_of(m, frames, (n - 1) as nat);
        let row = recover::frame_row(frames[n - 1]);
        assert(memtable::rows_put(before, row).len() > 0);
    }
}

proof fn lemma_rows_same(a: ManifestView, b: ManifestView, frames: Seq<FrameView>, n: nat)
    requires
        n <= frames.len(),
        forall|i: int|
            0 <= i < n ==> (recover::redundant(a, (#[trigger] frames[i]).seq)
                <==> recover::redundant(b, frames[i].seq)),
    ensures
        recover_laws::rows_of(a, frames, n) == recover_laws::rows_of(b, frames, n),
    decreases n,
{
    if n > 0 {
        lemma_rows_same(a, b, frames, (n - 1) as nat);
    }
}

/// Only a log without unpublished mutations is cut, and only beside a container whose state is
/// durable.
pub proof fn lemma_cut_loses_nothing(s: StoreView, log: Seq<Entry>, i: int)
    requires
        recover_laws::covers(log, s),
        lifecycle::close_step(s) == CloseStep::CutLog,
        0 <= i < log_laws::log_applied(log).len(),
    ensures
        recover::redundant(s.manifest, log_laws::log_applied(log)[i].seq),
        !s.unsynced,
{
    let frames = log_laws::log_applied(log);
    lemma_rows_published(s.manifest, frames, frames.len());
}

/// A revision that stages nothing new and keeps the sequence leaves the log what it was: a merge,
/// a declaration of given-up blocks and a refold are such.
pub proof fn lemma_same_sequence_covers(s: StoreView, t: StoreView, log: Seq<Entry>)
    requires
        recover_laws::covers(log, s),
        t.mem == s.mem,
        t.manifest.next_seq == s.manifest.next_seq,
        t.manifest.commit != 0,
    ensures
        recover_laws::covers(log, t),
{
    let frames = log_laws::log_applied(log);
    assert forall|i: int| 0 <= i < frames.len() implies (recover::redundant(
        s.manifest,
        (#[trigger] frames[i]).seq,
    ) <==> recover::redundant(t.manifest, frames[i].seq)) by {
        assert(recover::redundant(s.manifest, frames[i].seq) || recover::is_pending(
            s.manifest,
            frames[i].seq,
        ));
    }
    lemma_rows_same(s.manifest, t.manifest, frames, frames.len());
}

/// However the flip of a flush ends, the log keeps every byte and every frame it had. Where the
/// flip did not select the new state, nothing changed; where it did, and the log held only what
/// was flushed, the log still covers the store, and everything that was shown is shown.
pub proof fn lemma_flush_keeps_log(
    s: StoreView,
    t: StoreView,
    log: Seq<Entry>,
    p: PlanView,
    e: EncodedPart,
    m: ManifestView,
    outcome: CommitOutcome,
    r: Result<PartRefView, PublishError>,
    id: Seq<char>,
)
    requires
        engine::store_ok(s),
        recover_laws::covers(log, s),
        forall|i: int|
            0 <= i < log_laws::log_applied(log).len() ==> (
            #[trigger] log_laws::log_applied(log)[i]).seq == engine::pending_seq(s),
        publish::flush_plan(s) == Ok::<PlanView, PublishError>(p),
        m.next_seq == p.seq_hi,
        m.commit != 0,
        publish::adopt_outcome(s, t, p, e, m, outcome, r),
    ensures
        t.wal == s.wal,
        recover_laws::covers(log, t),
        engine_read::visible(t, id) == engine_read::visible(s, id),
        outcome == CommitOutcome::NotSelected ==> t == s,
{
    let frames = log_laws::log_applied(log);
    let u = publish::published_store(s, p, e, m, s.wal);
    publish_laws::lemma_flush_visible(s, p, e, m, s.wal, id);
    if !s.requires_reopen && outcome != CommitOutcome::NotSelected {
        assert forall|i: int| 0 <= i < frames.len() implies recover::redundant(
            m,
            (#[trigger] frames[i]).seq,
        ) by {}
        lemma_rows_published(m, frames, frames.len());
        assert(t.mem =~= recover_laws::rows_of(m, frames, frames.len()));
    }
}

/// A store that opens beside a log covers what the log holds: every frame is either published or
/// staged.
pub proof fn lemma_open_covers(
    c: ContainerView,
    bytes: Seq<u8>,
    o: StoreOptions,
    t: StoreView,
    cut: bool,
    log: Seq<Entry>,
)
    requires
        recover::open_outcome(c, bytes, o, Ok((t, cut))),
        wal::replay_from(bytes, wal::replay_start(), o.read_limits) matches Ok(st)
            && st.applied == log_laws::log_applied(log),
    ensures
        recover_laws::covers(log, t),
{
    reveal(recover::preflight_fault);
    let s = open::current_view(c, o.read_limits)->Ok_0;
    let frames = log_laws::log_applied(log);
    lemma_walk_order(s, frames, frames.len());
    recover_laws::lemma_reopen_rows(
        s,
        recover::opened_writer(s.fold, o.block_target_bytes),
        frames,
        frames.len(),
    );
}

/// A log that was walked holds published frames, and after them frames of the pending sequence.
proof fn lemma_walk_order(s: ReadStoreView, frames: Seq<FrameView>, n: nat)
    requires
        n <= frames.len(),
        recover::walk(s, frames, n) is Ok,
    ensures
        forall|i: int|
            0 <= i < n ==> recover::redundant(s.manifest, (#[trigger] frames[i]).seq)
                || recover::is_pending(s.manifest, frames[i].seq),
        recover::walk(s, frames, n)->Ok_0.saw_pending <==> (exists|i: int|
            0 <= i < n && recover::is_pending(s.manifest, (#[trigger] frames[i]).seq)),
        forall|i: int, j: int|
            0 <= i < j < n && recover::redundant(s.manifest, (#[trigger] frames[j]).seq)
                ==> recover::redundant(s.manifest, (#[trigger] frames[i]).seq),
    decreases n,
{
    if n > 0 {
        lemma_walk_order(s, frames, (n - 1) as nat);
        assert(recover::walk(s, frames, n) is Ok);
        let at = recover::walk(s, frames, (n - 1) as nat)->Ok_0;
        assert(recover::walked(s, at, frames[n - 1]) is Ok);
    }
}

/// Whatever was accepted is shown after a crash at any point of a flush. The log is the one the
/// store had before the flip; the container is the one before the flip or the one after it. A
/// writer that opens there shows of every id what the store showed.
pub proof fn lemma_crash_in_flush(
    s: StoreView,
    log: Seq<Entry>,
    p: PlanView,
    e: EncodedPart,
    m: ManifestView,
    c: ContainerView,
    bytes: Seq<u8>,
    o: StoreOptions,
    t: StoreView,
    cut: bool,
    id: Seq<char>,
)
    requires
        engine::store_ok(s),
        recover_laws::covers(log, s),
        publish::flush_plan(s) == Ok::<PlanView, PublishError>(p),
        m.next_seq == p.seq_hi,
        m.commit != 0,
        wal::replay_from(bytes, wal::replay_start(), o.read_limits) matches Ok(st)
            && st.applied == log_laws::log_applied(log),
        open::current_view(c, o.read_limits) matches Ok(v) && {
            ||| v.manifest == s.manifest && v.parts == s.parts
            ||| v.manifest == m && v.parts == publish::published_store(s, p, e, m, s.wal).parts
        },
        recover::open_outcome(c, bytes, o, Ok((t, cut))),
    ensures
        engine_read::visible(t, id) == engine_read::visible(s, id),
{
    reveal(recover::preflight_fault);
    let v = open::current_view(c, o.read_limits)->Ok_0;
    let u = publish::published_store(s, p, e, m, s.wal);
    lemma_open_covers(c, bytes, o, t, cut, log);
    if v.manifest == s.manifest && v.parts == s.parts {
        assert(t.mem == s.mem);
    } else {
        publish_laws::lemma_flush_visible(s, p, e, m, s.wal, id);
        lemma_open_published(s, log, p, e, m, c, bytes, o, t, cut);
        assert(t.mem =~= u.mem);
    }
}

/// A writer that opens over the revision a flush published stages nothing of the log that carried
/// the flushed rows.
pub proof fn lemma_open_published(
    s: StoreView,
    log: Seq<Entry>,
    p: PlanView,
    e: EncodedPart,
    m: ManifestView,
    c: ContainerView,
    bytes: Seq<u8>,
    o: StoreOptions,
    t: StoreView,
    cut: bool,
)
    requires
        recover_laws::covers(log, s),
        publish::flush_plan(s) == Ok::<PlanView, PublishError>(p),
        m.next_seq == p.seq_hi,
        m.commit != 0,
        wal::replay_from(bytes, wal::replay_start(), o.read_limits) matches Ok(st)
            && st.applied == log_laws::log_applied(log),
        open::current_view(c, o.read_limits) matches Ok(v) && v.manifest == m,
        recover::open_outcome(c, bytes, o, Ok((t, cut))),
    ensures
        t.mem.len() == 0,
{
    reveal(recover::preflight_fault);
    let v = open::current_view(c, o.read_limits)->Ok_0;
    let frames = log_laws::log_applied(log);
    lemma_open_covers(c, bytes, o, t, cut, log);
    lemma_walk_order(v, frames, frames.len());
    assert forall|i: int| 0 <= i < frames.len() implies recover::redundant(
        m,
        (#[trigger] frames[i]).seq,
    ) by {
        assert(recover::redundant(s.manifest, frames[i].seq) || recover::is_pending(
            s.manifest,
            frames[i].seq,
        ));
    }
    lemma_rows_published(m, frames, frames.len());
}

} // verus!
