//! What a whole flush, merge, refold and erasure does, from the state before it to the state after.

use crate::memtable;
use crate::part;
use crate::part::PartView;
use crate::store::audit;
use crate::store::batch_apply;
use crate::store::batch_apply::MemberView;
use crate::store::carve::ItemView;
use crate::store::commit::CommitOutcome;
use crate::store::count_laws;
use crate::store::engine;
use crate::store::engine::StoreView;
use crate::store::engine_laws;
use crate::store::engine_read;
use crate::store::erase;
use crate::store::lifecycle;
use crate::store::lifecycle::CloseStep;
use crate::store::manifest;
use crate::store::manifest::{FoldTail, ManifestView, PartRefView};
use crate::store::names;
use crate::store::publish;
use crate::store::publish::{EncodedPart, PlanView, PublishError};
use crate::store::publish_laws;
use crate::store::refold;
use crate::store::refold::{RefoldError, RefoldStats, RefoldView};
use crate::store::refold_laws;
use crate::store::staged_laws;
use crate::store::writer::{Novel, WriterView};
use crate::text;
use crate::types::OpView;
use vstd::prelude::*;

verus! {

/// A planned part that was prepared, staged and committed.
pub open spec fn published(
    s: StoreView,
    t: StoreView,
    p: PlanView,
    e: EncodedPart,
    tail: FoldTail,
    predecessor: Option<Seq<u8>>,
    m: ManifestView,
    r: Result<PartRefView, PublishError>,
) -> bool {
    let ready = StoreView { writer: publish::sealed_writer(s.writer), ..s };
    &&& publish::prepare_outcome(
        s,
        ready,
        publish::planned_manifest(s.manifest, p, e.bytes@, tail),
        predecessor,
        Ok(m),
    )
    &&& publish::adopt_outcome(ready, t, p, e, m, CommitOutcome::Committed, r)
}

/// A store whose log was written, or cut, and nothing else.
pub open spec fn log_moved(s: StoreView, t: StoreView) -> bool {
    t == StoreView { wal: t.wal, unsynced: t.unsynced, ..s }
}

/// A flush that committed, and settled its log: the memtable became one part of the next sequence,
/// the revision is the next one, nothing is staged or logged, every record shows as before, and
/// every value that read reads the same.
pub proof fn lemma_flush(
    s: StoreView,
    t: StoreView,
    u: StoreView,
    p: PlanView,
    e: EncodedPart,
    tail: FoldTail,
    predecessor: Option<Seq<u8>>,
    m: ManifestView,
    r: Result<PartRefView, PublishError>,
    id: Seq<char>,
    name: Seq<char>,
)
    requires
        engine::store_ok(s),
        !s.requires_reopen,
        publish::flush_plan(s) == Ok::<PlanView, PublishError>(p),
        published(s, t, p, e, tail, predecessor, m, r),
        if s.wal.frames() > 0 {
            lifecycle::log_cut_outcome(t, u)
        } else {
            u == t
        },
    ensures
        r is Ok,
        r->Ok_0.member == text::chars(names::part_name(engine::pending_seq(s))),
        r->Ok_0.seq_lo == s.manifest.next_seq + 1,
        r->Ok_0.seq_hi == s.manifest.next_seq + 1,
        s.mem.len() <= u32::MAX ==> r->Ok_0.records == s.mem.len(),
        s.wal.frames() > 0 ==> lifecycle::close_step(t) == CloseStep::CutLog,
        t.wal == s.wal,
        u.manifest.next_seq == s.manifest.next_seq + 1,
        u.manifest.commit == s.manifest.commit + 1,
        u.manifest.parts.len() == s.manifest.parts.len() + 1,
        u.parts.len() == s.parts.len() + 1,
        u.mem.len() == 0,
        u.mem_bytes == 0,
        s.wal.frames() > 0 ==> u.wal.written() + u.wal.buffered().len() == 0,
        lifecycle::close_step(u) == CloseStep::RemoveLog,
        engine_read::visible(u, id) == engine_read::visible(s, id),
        staged_laws::staged_found(s) && engine_read::value(s, id, name) is Ok
            ==> engine_read::value(u, id, name) == engine_read::value(s, id, name),
{
    let v = publish::published_store(s, p, e, m, s.wal);
    publish_laws::lemma_flush_visible(s, p, e, m, s.wal, id);
    if staged_laws::staged_found(s) && engine_read::value(s, id, name) is Ok {
        staged_laws::lemma_flush_keeps_values(s, p, e, m, s.wal, id, name);
    }
    assert(u.parts == v.parts);
    assert(u.mem == v.mem);
    let reference = publish::plan_ref(p, e.bytes@);
    assert(m.parts == publish::spliced(s.manifest.parts, p.start, 0, reference));
    assert(m.parts[p.start as int] == reference);
}

/// A merge of a run that committed: the run became one part that spans it, every other part is
/// where it was, nothing that was staged, logged or shown changed, and every value that read reads
/// the same where stored bytes of one identity are the same.
pub proof fn lemma_merge(
    s: StoreView,
    t: StoreView,
    lo: int,
    len: int,
    p: PlanView,
    e: EncodedPart,
    tail: FoldTail,
    predecessor: Option<Seq<u8>>,
    m: ManifestView,
    r: Result<PartRefView, PublishError>,
    id: Seq<char>,
    name: Seq<char>,
)
    requires
        engine::store_ok(s),
        !s.requires_reopen,
        0 <= lo,
        publish::mergeable(s, lo, len),
        publish::merge_plan(s, lo, len) == Ok::<PlanView, PublishError>(p),
        published(s, t, p, e, tail, predecessor, m, r),
    ensures
        r == Ok::<PartRefView, PublishError>(t.manifest.parts[lo]),
        t.parts.len() == s.parts.len() - (len - 1),
        t.manifest.parts.len() == t.parts.len(),
        t.manifest.parts[lo].seq_lo == s.manifest.parts[lo].seq_lo,
        t.manifest.parts[lo].seq_hi == s.manifest.parts[lo + len - 1].seq_hi,
        forall|i: int|
            0 <= i < lo ==> #[trigger] t.parts[i] == s.parts[i] && t.manifest.parts[i]
                == s.manifest.parts[i],
        forall|i: int|
            lo < i < t.parts.len() ==> #[trigger] t.parts[i] == s.parts[i + len - 1]
                && t.manifest.parts[i] == s.manifest.parts[i + len - 1],
        t.manifest.next_seq == s.manifest.next_seq,
        t.manifest.commit == s.manifest.commit + 1,
        t.mem == s.mem,
        t.wal == s.wal,
        engine_read::visible(t, id) == engine_read::visible(s, id),
        publish_laws::agreeing(s.writer.fold) && engine_read::value(s, id, name) is Ok
            ==> engine_read::value(t, id, name) == engine_read::value(s, id, name),
{
    let u = publish::published_store(s, p, e, m, s.wal);
    publish_laws::lemma_merge_visible(s, lo, len, p, e, m, id);
    if publish_laws::agreeing(s.writer.fold) && engine_read::value(s, id, name) is Ok {
        staged_laws::lemma_merge_keeps_values(s, lo, len, p, e, m, id, name);
        lemma_sealed_value(u, t, id, name);
    }
    assert(t.parts == u.parts);
    assert(t.mem == u.mem);
    let reference = publish::plan_ref(p, e.bytes@);
    assert(m.parts == publish::spliced(s.manifest.parts, lo as nat, len as nat, reference));
    assert(m.parts[lo] == reference);
}

/// A refold that committed: the next generation of the fold, with nothing given up in it, one
/// retained revision, the sequence where it was, and every record showing as before. It kept one
/// record for each id that is shown and dropped every other row, and every value that read reads
/// the same where stored bytes of one identity are the same.
pub proof fn lemma_refold(
    s: StoreView,
    t: StoreView,
    p: RefoldView,
    encoded: Seq<EncodedPart>,
    tail: FoldTail,
    predecessor: Option<Seq<u8>>,
    m: ManifestView,
    r: Result<RefoldStats, PublishError>,
    bytes_before: u64,
    bytes_after: u64,
    id: Seq<char>,
    name: Seq<char>,
)
    requires
        engine::store_ok(s),
        !s.requires_reopen,
        s.mem.len() == 0,
        s.parts.len() > 0,
        refold::refold_plan(s) == Ok::<RefoldView, RefoldError>(p),
        manifest::succeeding(
            refold::refold_manifest(s.manifest, p, encoded, tail),
            m,
            predecessor,
        ),
        refold::refold_outcome(
            s,
            t,
            p,
            encoded,
            m,
            CommitOutcome::Committed,
            r,
            bytes_before,
            bytes_after,
        ),
    ensures
        r is Ok,
        t.manifest.fold_gen == s.manifest.fold_gen + 1,
        t.manifest.punched.len() == 0,
        t.manifest.next_seq == s.manifest.next_seq,
        t.manifest.commit == s.manifest.commit + 1,
        t.retained_commit_count == 1,
        t.mem.len() == 0,
        t.wal == s.wal,
        count_laws::visible_ids(s).finite(),
        r->Ok_0.records_kept == audit::fit(count_laws::visible_ids(s).len()),
        count_laws::physical_rows(s.parts, s.parts.len()) <= usize::MAX ==> r->Ok_0.records_kept
            + r->Ok_0.records_dropped == count_laws::physical_rows(s.parts, s.parts.len()),
        r->Ok_0.fold_bytes_before == bytes_before,
        r->Ok_0.fold_bytes_after == bytes_after,
        engine_read::visible(t, id) == engine_read::visible(s, id),
        publish_laws::agreeing(s.writer.fold) && engine_read::value(s, id, name) is Ok
            ==> engine_read::value(t, id, name) == engine_read::value(s, id, name),
{
    let u = refold::refolded_store(s, p, encoded, m);
    refold_laws::lemma_refold_visible(s, p, encoded, m, id);
    count_laws::lemma_refold_counts(s, p);
    if publish_laws::agreeing(s.writer.fold) && engine_read::value(s, id, name) is Ok {
        refold_laws::lemma_refold_value(s, p, encoded, m, id, name);
    }
    assert(t.parts == u.parts);
    assert(t.writer == u.writer);
}

/// Sealing blocks changes no value.
proof fn lemma_sealed_value(s: StoreView, t: StoreView, id: Seq<char>, name: Seq<char>)
    requires
        t.parts == s.parts,
        t.mem == s.mem,
        t.writer.fold == s.writer.fold,
        t.writer.window == s.writer.window,
    ensures
        engine_read::value(t, id, name) == engine_read::value(s, id, name),
{
    if let Some(row) = memtable::row_at(s.mem, id) {
        if let Some(r) = row.record {
            if let Some(c) = part::content_named(r.contents, name) {
                lemma_sealed_program(s.parts, s.writer, t.writer, c.ops);
            }
        }
    }
}

proof fn lemma_sealed_program(
    parts: Seq<PartView>,
    w: WriterView,
    after: WriterView,
    ops: Seq<OpView>,
)
    requires
        after.fold == w.fold,
        after.window == w.window,
    ensures
        engine_read::staged_program(parts, after, ops) == engine_read::staged_program(
            parts,
            w,
            ops,
        ),
    decreases ops.len(),
{
    if ops.len() > 0 {
        lemma_sealed_program(parts, w, after, ops.drop_last());
    }
}

/// The plans, parts and revisions of an erasure.
pub struct ErasureView {
    pub flush: (PlanView, EncodedPart, FoldTail, Option<Seq<u8>>, ManifestView),
    pub merge: (PlanView, EncodedPart, FoldTail, Option<Seq<u8>>, ManifestView),
    pub refold: (RefoldView, Seq<EncodedPart>, ManifestView),
    pub bytes_before: u64,
    pub bytes_after: u64,
}

/// An erasure from its deletions on: they are applied, made durable, and flushed; all parts are
/// merged where there is more than one; and the fold is rewritten.
pub open spec fn erased_through(
    s: StoreView,
    applied: StoreView,
    synced: StoreView,
    flushed: StoreView,
    settled: StoreView,
    merged: StoreView,
    t: StoreView,
    ids: Seq<Seq<char>>,
    v: ErasureView,
) -> bool {
    let (p, e, tail, predecessor, m) = v.flush;
    let (p2, e2, tail2, predecessor2, m2) = v.merge;
    let (p3, e3, m3) = v.refold;
    &&& batch_apply::apply_outcome(
        s,
        applied,
        erase::deletions(erase::erasable(s, ids, ids.len())),
        Ok(()),
    )
    &&& log_moved(applied, synced)
    &&& publish::flush_plan(synced) == Ok::<PlanView, PublishError>(p)
    &&& published(
        synced,
        flushed,
        p,
        e,
        tail,
        predecessor,
        m,
        Ok(m.parts[p.start as int]),
    )
    &&& log_moved(flushed, settled)
    &&& if settled.parts.len() > 1 {
        &&& publish::merge_plan(settled, 0, settled.parts.len() as int) == Ok::<
            PlanView,
            PublishError,
        >(p2)
        &&& published(settled, merged, p2, e2, tail2, predecessor2, m2, Ok(m2.parts[0]))
    } else {
        merged == settled
    }
    &&& refold::refold_plan(merged) == Ok::<RefoldView, RefoldError>(p3)
    &&& refold::refold_outcome(
        merged,
        t,
        p3,
        e3,
        m3,
        CommitOutcome::Committed,
        Ok(refold::refold_report(p3, v.bytes_before, v.bytes_after)),
        v.bytes_before,
        v.bytes_after,
    )
}

/// A whole erasure leaves nothing of what it names: no named record is shown, and no part has a
/// row for it; every other record is what it was; and one revision is retained, so that no earlier
/// one serves what was erased.
pub proof fn lemma_erasure(
    s: StoreView,
    applied: StoreView,
    synced: StoreView,
    flushed: StoreView,
    settled: StoreView,
    merged: StoreView,
    t: StoreView,
    ids: Seq<Seq<char>>,
    v: ErasureView,
    id: Seq<char>,
)
    requires
        engine::store_ok(s),
        engine::store_ok(synced),
        engine::store_ok(settled),
        engine::store_ok(merged),
        erased_through(s, applied, synced, flushed, settled, merged, t, ids, v),
    ensures
        ids.contains(id) ==> engine_read::visible(t, id) is None,
        ids.contains(id) ==> forall|q: int|
            0 <= q < t.parts.len() ==> part::row_of((#[trigger] t.parts[q]).rows, id) is None,
        !ids.contains(id) ==> engine_read::visible(t, id) == engine_read::visible(s, id),
        t.retained_commit_count == 1,
        t.mem.len() == 0,
{
    let (p, e, tail, predecessor, m) = v.flush;
    let (p2, e2, tail2, predecessor2, m2) = v.merge;
    let (p3, e3, m3) = v.refold;
    erase::lemma_erasure_visible(s, applied, ids, id);
    assert(engine_read::visible(synced, id) == engine_read::visible(applied, id));
    let u1 = publish::published_store(synced, p, e, m, synced.wal);
    publish_laws::lemma_flush_visible(synced, p, e, m, synced.wal, id);
    assert(settled.parts == u1.parts && settled.mem == u1.mem);
    assert(engine_read::visible(settled, id) == engine_read::visible(synced, id));
    assert(settled.parts.len() == synced.parts.len() + 1);
    if settled.parts.len() > 1 {
        let n = settled.parts.len() as int;
        let u2 = publish::published_store(settled, p2, e2, m2, settled.wal);
        publish_laws::lemma_merge_visible(settled, 0, n, p2, e2, m2, id);
        assert(merged.parts == u2.parts && merged.mem == u2.mem);
    }
    assert(engine_read::visible(merged, id) == engine_read::visible(settled, id));
    let u3 = refold::refolded_store(merged, p3, e3, m3);
    refold_laws::lemma_refold_visible(merged, p3, e3, m3, id);
    assert(t.parts == u3.parts && t.mem == u3.mem);
    if ids.contains(id) {
        assert forall|q: int| 0 <= q < t.parts.len() implies part::row_of(
            (#[trigger] t.parts[q]).rows,
            id,
        ) is None by {
            erase::lemma_refold_drops(merged, p3, e3, m3, id, q);
        }
    }
}

/// Deletions fold nothing.
proof fn lemma_deletions_fold(
    parts: Seq<PartView>,
    w: WriterView,
    ids: Seq<Seq<char>>,
    n: nat,
)
    requires
        n <= ids.len(),
    ensures
        batch_apply::folded_items(parts, w, erase::deletions(ids), n) matches Ok((after, _))
            && after == w,
    decreases n,
{
    if n > 0 {
        lemma_deletions_fold(parts, w, ids, (n - 1) as nat);
        assert(erase::deletions(ids)[n - 1] == ItemView::Delete { id: ids[n - 1] });
    }
}

/// A whole erasure changes no other value that could be read, where stored bytes of one identity
/// are the same.
pub proof fn lemma_erasure_values(
    s: StoreView,
    applied: StoreView,
    synced: StoreView,
    flushed: StoreView,
    settled: StoreView,
    merged: StoreView,
    t: StoreView,
    ids: Seq<Seq<char>>,
    v: ErasureView,
    id: Seq<char>,
    name: Seq<char>,
)
    requires
        engine::store_ok(s),
        engine::store_ok(synced),
        engine::store_ok(settled),
        engine::store_ok(merged),
        erased_through(s, applied, synced, flushed, settled, merged, t, ids, v),
        staged_laws::staged_found(s),
        publish_laws::agreeing(s.writer.fold),
        engine_read::value(s, id, name) is Ok,
        !ids.contains(id),
    ensures
        engine_read::value(t, id, name) == engine_read::value(s, id, name),
{
    let (p, e, tail, predecessor, m) = v.flush;
    let (p2, e2, tail2, predecessor2, m2) = v.merge;
    let (p3, e3, m3) = v.refold;
    let gone = erase::erasable(s, ids, ids.len());
    let items = erase::deletions(gone);
    lemma_deletions_fold(s.parts, s.writer, gone, gone.len());
    staged_laws::lemma_apply_found(s, applied, items);
    erase::lemma_erasable(s, ids, ids.len(), id);
    lemma_untouched(s, applied, gone, id);
    assert(applied.writer == s.writer);
    assert(engine_read::value(applied, id, name) == engine_read::value(s, id, name));
    assert(engine_read::value(synced, id, name) == engine_read::value(applied, id, name));
    assert forall|other: Seq<char>|
        (#[trigger] engine_read::staged_record(synced.mem, other)) matches Some(
            r,
        ) implies staged_laws::all_found(
        synced.parts,
        synced.writer,
        (engine_read::staged_record(synced.mem, other)->0).contents,
    ) by {
        assert(engine_read::staged_record(applied.mem, other) is Some);
    }
    let u1 = publish::published_store(synced, p, e, m, synced.wal);
    staged_laws::lemma_flush_keeps_values(synced, p, e, m, synced.wal, id, name);
    lemma_sealed_value(u1, settled, id, name);
    if settled.parts.len() > 1 {
        let n = settled.parts.len() as int;
        let u2 = publish::published_store(settled, p2, e2, m2, settled.wal);
        staged_laws::lemma_merge_keeps_values(settled, 0, n, p2, e2, m2, id, name);
        lemma_sealed_value(u2, merged, id, name);
    }
    refold_laws::lemma_refold_value(merged, p3, e3, m3, id, name);
    lemma_sealed_value(refold::refolded_store(merged, p3, e3, m3), t, id, name);
}

/// A batch of deletions leaves the row of every other id.
proof fn lemma_untouched(s: StoreView, t: StoreView, gone: Seq<Seq<char>>, id: Seq<char>)
    requires
        engine::store_ok(s),
        batch_apply::apply_outcome(s, t, erase::deletions(gone), Ok(())),
        !gone.contains(id),
    ensures
        memtable::row_at(t.mem, id) == memtable::row_at(s.mem, id),
        t.parts == s.parts,
        t.manifest == s.manifest,
        t.writer == s.writer,
{
    let items = erase::deletions(gone);
    lemma_deletions_fold(s.parts, s.writer, gone, gone.len());
    if items.len() > 0 {
        let (after, news) = batch_apply::folded_items(
            s.parts,
            s.writer,
            items,
            items.len(),
        )->Ok_0;
        let members = choose|members: Seq<MemberView>|
            {
                &&& members.len() == items.len()
                &&& #[trigger] batch_apply::all_framed(items, news, members)
                &&& batch_apply::batch_log_outcome(
                    s.wal,
                    t.wal,
                    engine::pending_seq(s),
                    members,
                    Ok(()),
                )
                &&& t == StoreView {
                    writer: after,
                    wal: t.wal,
                    mem: batch_apply::staged(s.mem, members, members.len()),
                    mem_bytes: batch_apply::weighed(s.mem_bytes, members, members.len()),
                    ..s
                }
            };
        engine_laws::lemma_staged_lookup(s.mem, members, members.len(), id);
        lemma_no_member(gone, news, members, id, members.len());
    }
}

proof fn lemma_no_member(
    gone: Seq<Seq<char>>,
    news: Seq<Novel>,
    members: Seq<MemberView>,
    id: Seq<char>,
    n: nat,
)
    requires
        n <= members.len() <= gone.len(),
        batch_apply::all_framed(erase::deletions(gone), news, members),
        !gone.contains(id),
    ensures
        engine_laws::last_member(members, id, n) is None,
    decreases n,
{
    if n > 0 {
        lemma_no_member(gone, news, members, id, (n - 1) as nat);
        let item = erase::deletions(gone)[n - 1];
        assert(batch_apply::framed(item, news[n - 1], members[n - 1]));
        assert(item == ItemView::Delete { id: gone[n - 1] });
        assert(gone.contains(gone[n - 1]));
    }
}

proof fn lemma_erasable_unique(s: StoreView, ids: Seq<Seq<char>>, n: nat)
    requires
        n <= ids.len(),
    ensures
        erase::erasable(s, ids, n).no_duplicates(),
        erase::erasable(s, ids, n).len() <= n,
    decreases n,
{
    if n > 0 {
        lemma_erasable_unique(s, ids, (n - 1) as nat);
        let before = erase::erasable(s, ids, (n - 1) as nat);
        let after = erase::erasable(s, ids, n);
        if after.len() > before.len() {
            erase::lemma_erasable(s, ids, (n - 1) as nat, ids[n - 1]);
            assert forall|i: int, j: int|
                0 <= i < after.len() && 0 <= j < after.len() && i != j implies after[i]
                != after[j] by {
                if i < before.len() && j < before.len() {
                    assert(after[i] == before[i] && after[j] == before[j]);
                } else if i < before.len() {
                    assert(before.contains(after[i]));
                } else {
                    assert(before.contains(after[j]));
                }
            }
        }
    }
}

/// What an erasure counts: it erases each shown record that is named, once, and leaves the others.
pub proof fn lemma_erasure_counts(s: StoreView, t: StoreView, ids: Seq<Seq<char>>)
    requires
        count_laws::visible_ids(s).finite(),
        forall|id: Seq<char>|
            ids.contains(id) ==> #[trigger] engine_read::visible(t, id) is None,
        forall|id: Seq<char>|
            !ids.contains(id) ==> #[trigger] engine_read::visible(t, id)
                == engine_read::visible(s, id),
    ensures
        ({
            let gone = erase::erasable(s, ids, ids.len());
            &&& gone.len() <= ids.len()
            &&& gone.len() == count_laws::visible_ids(s).intersect(ids.to_set()).len()
            &&& count_laws::visible_ids(t).finite()
            &&& count_laws::visible_ids(t).len() == count_laws::visible_ids(s).len() - gone.len()
        }),
{
    let gone = erase::erasable(s, ids, ids.len());
    let (before, after) = (count_laws::visible_ids(s), count_laws::visible_ids(t));
    lemma_erasable_unique(s, ids, ids.len());
    gone.unique_seq_to_set();
    let both = before.intersect(ids.to_set());
    assert forall|id: Seq<char>| #[trigger] both.contains(id) <==> gone.to_set().contains(id) by {
        erase::lemma_erasable(s, ids, ids.len(), id);
        assert(ids.contains(id) <==> erase::named_among(ids, ids.len() as int, id));
    }
    assert(both =~= gone.to_set());
    assert forall|id: Seq<char>| #[trigger] after.contains(id) <==> before.difference(
        both,
    ).contains(id) by {
        if ids.contains(id) {
            assert(engine_read::visible(t, id) is None);
        } else {
            assert(engine_read::visible(t, id) == engine_read::visible(s, id));
        }
    }
    assert(after =~= before.difference(both));
    vstd::set_lib::lemma_set_difference_len(before, both);
    assert(both.subset_of(before));
    assert(before.intersect(both) =~= both);
}

} // verus!
