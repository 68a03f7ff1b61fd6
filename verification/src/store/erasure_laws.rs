//! Laws of an erasure as a run of steps: whatever the store looks like, a run that is done has
//! merged what had to be merged and rewritten the fold, and nothing of what it names is left.

use crate::part;
use crate::store::batch_apply;
use crate::store::commit::CommitOutcome;
use crate::store::engine;
use crate::store::engine::StoreView;
use crate::store::engine_read;
use crate::store::erase;
use crate::store::erase::ErasureStep;
use crate::store::manifest::{FoldTail, ManifestView};
use crate::store::operation_laws;
use crate::store::operation_laws::ErasureView;
use crate::store::publish;
use crate::store::publish::{EncodedPart, PlanView, PublishError};
use crate::store::punch;
use crate::store::purge_laws;
use crate::store::refold;
use crate::store::refold::{RefoldError, RefoldView};
use vstd::prelude::*;

verus! {

/// A planned part was published, and the log settled.
pub open spec fn settled(
    s: StoreView,
    t: StoreView,
    p: PlanView,
    e: EncodedPart,
    tail: FoldTail,
    predecessor: Option<Seq<u8>>,
    m: ManifestView,
    at: int,
) -> bool {
    exists|u: StoreView|
        #![trigger operation_laws::log_moved(u, t)]
        operation_laws::published(s, u, p, e, tail, predecessor, m, Ok(m.parts[at]))
            && operation_laws::log_moved(u, t)
}

/// What a host did when it carried out a step: the store before it and after it.
#[verifier::opaque]
pub open spec fn carried_out(
    step: ErasureStep,
    s: StoreView,
    t: StoreView,
    ids: Seq<Seq<char>>,
    v: ErasureView,
) -> bool {
    match step {
        ErasureStep::Apply => batch_apply::apply_outcome(
            s,
            t,
            erase::deletions(erase::erasable(s, ids, ids.len())),
            Ok(()),
        ),
        ErasureStep::Sync => operation_laws::log_moved(s, t),
        ErasureStep::Flush => {
            let (p, e, tail, predecessor, m) = v.flush;
            &&& publish::flush_plan(s) == Ok::<PlanView, PublishError>(p)
            &&& settled(s, t, p, e, tail, predecessor, m, p.start as int)
        },
        ErasureStep::MergeAll => {
            let (p, e, tail, predecessor, m) = v.merge;
            &&& publish::merge_plan(s, 0, s.parts.len() as int) == Ok::<PlanView, PublishError>(p)
            &&& operation_laws::published(s, t, p, e, tail, predecessor, m, Ok(m.parts[0]))
        },
        ErasureStep::Refold => {
            let (p, e, m) = v.refold;
            &&& refold::refold_plan(s) == Ok::<RefoldView, RefoldError>(p)
            &&& refold::refold_outcome(
                s,
                t,
                p,
                e,
                m,
                CommitOutcome::Committed,
                Ok(refold::refold_report(p, v.bytes_before, v.bytes_after)),
                v.bytes_before,
                v.bytes_after,
            )
        },
        ErasureStep::Done => t == s,
    }
}

/// Step `i` was carried out, and the next one is the one that the store it led to asks for.
pub open spec fn moves_on(
    steps: Seq<ErasureStep>,
    stores: Seq<StoreView>,
    ids: Seq<Seq<char>>,
    v: ErasureView,
    i: int,
) -> bool {
    &&& steps[i] != ErasureStep::Done
    &&& carried_out(steps[i], stores[i], stores[i + 1], ids, v)
    &&& steps[i + 1] == erase::step_after(steps[i], stores[i + 1].parts.len())
}

/// A run of an erasure that has something to erase: it begins with the deletions, each step is
/// carried out, the next one is the one that the store it led to asks for, and it ends when it is
/// told that it is done.
pub open spec fn is_run(
    steps: Seq<ErasureStep>,
    stores: Seq<StoreView>,
    ids: Seq<Seq<char>>,
    v: ErasureView,
) -> bool {
    &&& steps.len() > 0
    &&& stores.len() == steps.len()
    &&& steps[0] == ErasureStep::Apply
    &&& steps.last() == ErasureStep::Done
    &&& forall|i: int|
        0 <= i < steps.len() - 1 ==> #[trigger] moves_on(steps, stores, ids, v, i)
    &&& forall|i: int| 0 <= i < stores.len() ==> engine::store_ok(#[trigger] stores[i])
}

/// The steps of every run: deletions are applied, made durable and flushed; every part is merged
/// where the flush left more than one; and the fold is rewritten last.
pub proof fn lemma_erasure_steps(
    steps: Seq<ErasureStep>,
    stores: Seq<StoreView>,
    ids: Seq<Seq<char>>,
    v: ErasureView,
)
    requires
        is_run(steps, stores, ids, v),
    ensures
        steps.len() >= 5,
        stores[3].parts.len() > 1 ==> steps =~= seq![
            ErasureStep::Apply,
            ErasureStep::Sync,
            ErasureStep::Flush,
            ErasureStep::MergeAll,
            ErasureStep::Refold,
            ErasureStep::Done,
        ],
        stores[3].parts.len() <= 1 ==> steps =~= seq![
            ErasureStep::Apply,
            ErasureStep::Sync,
            ErasureStep::Flush,
            ErasureStep::Refold,
            ErasureStep::Done,
        ],
        steps[steps.len() - 2] == ErasureStep::Refold,
{
    assert(moves_on(steps, stores, ids, v, 0));
    assert(moves_on(steps, stores, ids, v, 1));
    assert(moves_on(steps, stores, ids, v, 2));
    assert(moves_on(steps, stores, ids, v, 3));
    if stores[3].parts.len() > 1 {
        assert(moves_on(steps, stores, ids, v, 4));
        if steps.len() > 6 {
            assert(moves_on(steps, stores, ids, v, 5));
        }
    } else {
        if steps.len() > 5 {
            assert(moves_on(steps, stores, ids, v, 4));
        }
    }
}

proof fn lemma_through(
    s: StoreView,
    applied: StoreView,
    synced: StoreView,
    flushed: StoreView,
    merged: StoreView,
    t: StoreView,
    ids: Seq<Seq<char>>,
    v: ErasureView,
    id: Seq<char>,
)
    requires
        engine::store_ok(s),
        engine::store_ok(synced),
        engine::store_ok(flushed),
        engine::store_ok(merged),
        engine::store_ok(t),
        carried_out(ErasureStep::Apply, s, applied, ids, v),
        carried_out(ErasureStep::Sync, applied, synced, ids, v),
        carried_out(ErasureStep::Flush, synced, flushed, ids, v),
        if flushed.parts.len() > 1 {
            carried_out(ErasureStep::MergeAll, flushed, merged, ids, v)
        } else {
            merged == flushed
        },
        carried_out(ErasureStep::Refold, merged, t, ids, v),
    ensures
        ids.contains(id) ==> engine_read::visible(t, id) is None,
        ids.contains(id) ==> forall|q: int|
            0 <= q < t.parts.len() ==> part::row_of((#[trigger] t.parts[q]).rows, id) is None,
        !ids.contains(id) ==> engine_read::visible(t, id) == engine_read::visible(s, id),
        t.retained_commit_count == 1,
        t.mem.len() == 0,
        forall|b: u32| !#[trigger] punch::store_dead(t).contains(b),
{
    let (p, e, tail, predecessor, m) = v.flush;
    let u = lemma_settled(synced, flushed, ids, v);
    assert(operation_laws::erased_through(
        s,
        applied,
        synced,
        u,
        flushed,
        merged,
        t,
        ids,
        v,
    )) by {
        reveal(carried_out);
    }
    operation_laws::lemma_erasure(s, applied, synced, u, flushed, merged, t, ids, v, id);
    lemma_nothing_dead(synced, flushed, merged, t, ids, v);
}

proof fn lemma_nothing_dead(
    synced: StoreView,
    flushed: StoreView,
    merged: StoreView,
    t: StoreView,
    ids: Seq<Seq<char>>,
    v: ErasureView,
)
    requires
        engine::store_ok(merged),
        engine::store_ok(t),
        carried_out(ErasureStep::Flush, synced, flushed, ids, v),
        if flushed.parts.len() > 1 {
            carried_out(ErasureStep::MergeAll, flushed, merged, ids, v)
        } else {
            merged == flushed
        },
        carried_out(ErasureStep::Refold, merged, t, ids, v),
        t.mem.len() == 0,
    ensures
        forall|b: u32| !#[trigger] punch::store_dead(t).contains(b),
{
    let u = lemma_settled(synced, flushed, ids, v);
    let (p, e, m) = v.refold;
    assert(merged.parts.len() > 0 && merged.mem == t.mem && refold::refold_plan(merged) == Ok::<
        RefoldView,
        RefoldError,
    >(p) && t.parts == refold::refolded_store(merged, p, e, m).parts && t.writer
        == refold::refolded_store(merged, p, e, m).writer) by {
        reveal(carried_out);
    }
    let r = refold::refolded_store(merged, p, e, m);
    purge_laws::lemma_refold_leaves_nothing_dead(merged, p, e, m);
    assert forall|b: u32| !#[trigger] punch::store_dead(t).contains(b) by {
        assert(!punch::store_dead(r).contains(b));
    }
}

proof fn lemma_settled(s: StoreView, t: StoreView, ids: Seq<Seq<char>>, v: ErasureView) -> (u:
    StoreView)
    requires
        carried_out(ErasureStep::Flush, s, t, ids, v),
    ensures
        operation_laws::published(
            s,
            u,
            v.flush.0,
            v.flush.1,
            v.flush.2,
            v.flush.3,
            v.flush.4,
            Ok(v.flush.4.parts[v.flush.0.start as int]),
        ),
        operation_laws::log_moved(u, t),
{
    reveal(carried_out);
    let (p, e, tail, predecessor, m) = v.flush;
    assert(settled(s, t, p, e, tail, predecessor, m, p.start as int));
    choose|u: StoreView|
        #![trigger operation_laws::log_moved(u, t)]
        operation_laws::published(s, u, p, e, tail, predecessor, m, Ok(m.parts[p.start as int]))
            && operation_laws::log_moved(u, t)
}

/// When a run is done, nothing of what it names is left: no named record is shown and no part has a
/// row for it, one revision is retained, so that no earlier one serves it, no block of the fold is
/// left that no shown record reaches, and every other record shows as before.
pub proof fn lemma_erasure_done(
    steps: Seq<ErasureStep>,
    stores: Seq<StoreView>,
    ids: Seq<Seq<char>>,
    v: ErasureView,
    id: Seq<char>,
)
    requires
        is_run(steps, stores, ids, v),
    ensures
        ({
            let (s, t) = (stores[0], stores.last());
            &&& ids.contains(id) ==> engine_read::visible(t, id) is None
            &&& ids.contains(id) ==> forall|q: int|
                0 <= q < t.parts.len() ==> part::row_of((#[trigger] t.parts[q]).rows, id) is None
            &&& !ids.contains(id) ==> engine_read::visible(t, id) == engine_read::visible(s, id)
            &&& t.retained_commit_count == 1
            &&& t.mem.len() == 0
            &&& forall|b: u32| !#[trigger] punch::store_dead(t).contains(b)
        }),
{
    lemma_erasure_steps(steps, stores, ids, v);
    assert(moves_on(steps, stores, ids, v, 0));
    assert(moves_on(steps, stores, ids, v, 1));
    assert(moves_on(steps, stores, ids, v, 2));
    assert(moves_on(steps, stores, ids, v, 3));
    if stores[3].parts.len() > 1 {
        assert(moves_on(steps, stores, ids, v, 4));
    }
    let last = stores.len() - 1;
    lemma_through(
        stores[0],
        stores[1],
        stores[2],
        stores[3],
        stores[last - 1],
        stores[last],
        ids,
        v,
        id,
    );
}

} // verus!
