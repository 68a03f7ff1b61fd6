//! Erasing records for good: delete them, drop the tombstones, and rewrite the fold.

use crate::bytes;
use crate::part;
use crate::store::batch_apply;
use crate::store::carve::{Batch, ItemView};
use crate::store::count_laws;
use crate::store::engine;
use crate::store::engine::{Store, StoreView};
use crate::store::engine_laws;
use crate::store::engine_read;
use crate::store::publish::EncodedPart;
use crate::store::manifest::ManifestView;
use crate::store::read;
use crate::store::refold;
use crate::store::refold::{RefoldError, RefoldStats, RefoldView};
use crate::store::refold_laws;
use crate::store::scan;
use vstd::prelude::*;

verus! {

/// What an erasure did.
#[derive(Clone, Copy, Debug, PartialEq, Eq, Structural)]
pub struct ErasureStats {
    pub requested: usize,
    pub tombstoned: usize,
    /// Named but already gone, or named before. A normal outcome.
    pub absent: usize,
    /// Records left after the operation.
    pub remaining: usize,
    /// Nothing when nothing was there to erase and the store was left as it was.
    pub refold: Option<RefoldStats>,
}

/// What is to be erased.
pub struct ErasurePlan {
    /// One deletion for each record.
    pub batch: Batch,
    pub requested: usize,
    pub tombstoned: usize,
    pub absent: usize,
}

/// The next thing an erasure does.
#[derive(Clone, Copy, Debug, PartialEq, Eq, Structural)]
pub enum ErasureStep {
    /// Apply the deletions.
    Apply,
    /// Make them durable.
    Sync,
    /// Flush them.
    Flush,
    /// Merge every part: only a total merge drops tombstones.
    MergeAll,
    /// Rewrite the fold.
    Refold,
    Done,
}

/// Whether an id is among the first `n`.
pub open spec fn named_among(ids: Seq<Seq<char>>, n: int, id: Seq<char>) -> bool {
    exists|i: int| 0 <= i < n && #[trigger] ids[i] == id
}

/// The visible ids among the first `n`, each once.
pub open spec fn erasable(s: StoreView, ids: Seq<Seq<char>>, n: nat) -> Seq<Seq<char>>
    decreases n,
{
    if n == 0 {
        Seq::empty()
    } else {
        let before = erasable(s, ids, (n - 1) as nat);
        if !named_among(ids, n - 1, ids[n - 1]) && engine_read::visible(s, ids[n - 1]) is Some {
            before.push(ids[n - 1])
        } else {
            before
        }
    }
}

/// Deletions of ids.
pub open spec fn deletions(ids: Seq<Seq<char>>) -> Seq<ItemView> {
    Seq::new(ids.len(), |i: int| ItemView::Delete { id: ids[i] })
}

/// What follows a step.
pub open spec fn step_after(step: ErasureStep, parts: nat) -> ErasureStep {
    match step {
        ErasureStep::Apply => ErasureStep::Sync,
        ErasureStep::Sync => ErasureStep::Flush,
        ErasureStep::Flush => if parts > 1 {
            ErasureStep::MergeAll
        } else {
            ErasureStep::Refold
        },
        ErasureStep::MergeAll => ErasureStep::Refold,
        ErasureStep::Refold => ErasureStep::Done,
        ErasureStep::Done => ErasureStep::Done,
    }
}

fn named_before(ids: &[String], n: usize) -> (r: bool)
    requires
        n < ids@.len(),
    ensures
        r == named_among(scan::texts_view(ids@), n as int, scan::texts_view(ids@)[n as int]),
{
    let ghost all = scan::texts_view(ids@);
    let mut i: usize = 0;
    while i < n
        invariant
            all == scan::texts_view(ids@),
            i <= n < ids@.len(),
            forall|k: int| 0 <= k < i ==> #[trigger] all[k] != all[n as int],
        decreases n - i,
    {
        assert(all[i as int] == ids@[i as int]@);
        if bytes::str_eq(ids[i].as_str(), ids[n].as_str()) {
            assert(all[i as int] == all[n as int]);
            return true;
        }
        i = i + 1;
    }
    false
}

impl ErasurePlan {
    /// The first step: nothing to delete means nothing to do.
    pub fn first_step(&self) -> (r: ErasureStep)
        ensures
            r == if self.tombstoned == 0 {
                ErasureStep::Done
            } else {
                ErasureStep::Apply
            },
            self.tombstoned > 0 <==> r == ErasureStep::Apply,
            self.tombstoned == 0 <==> r == ErasureStep::Done,
    {
        if self.tombstoned == 0 {
            ErasureStep::Done
        } else {
            ErasureStep::Apply
        }
    }
}

impl Store {
    /// Find which of the named records are there to erase.
    pub fn erase_ids(&self, ids: &[String]) -> (r: Option<ErasurePlan>)
        requires
            engine::store_ok(self@),
        ensures
            ({
                let all = scan::texts_view(ids@);
                let gone = erasable(self@, all, all.len());
                match r {
                    None => self@.requires_reopen,
                    Some(p) => {
                        &&& !self@.requires_reopen
                        &&& p.batch@ == deletions(gone)
                        &&& p.requested == all.len()
                        &&& p.tombstoned == gone.len()
                        &&& p.absent == all.len() - gone.len()
                    },
                }
            }),
    {
        if self.requires_reopen {
            return None;
        }
        let ghost all = scan::texts_view(ids@);
        let mut batch = Batch::new();
        let mut tombstoned: usize = 0;
        let mut absent: usize = 0;
        let mut i: usize = 0;
        assert(batch@ =~= deletions(Seq::empty()));
        while i < ids.len()
            invariant
                engine::store_ok(self@),
                all == scan::texts_view(ids@),
                i <= ids@.len(),
                batch@ == deletions(erasable(self@, all, i as nat)),
                tombstoned == erasable(self@, all, i as nat).len(),
                tombstoned + absent == i,
            decreases ids.len() - i,
        {
            assert(all[i as int] == ids@[i as int]@);
            if !named_before(ids, i) && self.get(ids[i].as_str()).is_some() {
                let ghost before = erasable(self@, all, i as nat);
                batch.delete(ids[i].as_str());
                assert(batch@ =~= deletions(before.push(all[i as int])));
                tombstoned = tombstoned + 1;
            } else {
                absent = absent + 1;
            }
            i = i + 1;
        }
        Some(ErasurePlan { batch, requested: ids.len(), tombstoned, absent })
    }

    /// What an erasure reports once it is done: the records left are those the store still shows,
    /// and a refold is reported exactly where something was erased.
    pub fn erased(&self, plan: &ErasurePlan, refold: Option<RefoldStats>) -> (r: ErasureStats)
        requires
            engine::store_ok(self@),
            self.countable(),
            plan.tombstoned > 0 ==> refold is Some,
        ensures
            count_laws::visible_ids(self@).finite(),
            r == (ErasureStats {
                requested: plan.requested,
                tombstoned: plan.tombstoned,
                absent: plan.absent,
                remaining: count_laws::visible_ids(self@).len() as usize,
                refold: if plan.tombstoned == 0 {
                    None
                } else {
                    refold
                },
            }),
            r.remaining == count_laws::visible_ids(self@).len(),
    {
        let left = self.ids();
        proof {
            let all = scan::texts_view(left@);
            assert forall|i: int, j: int|
                0 <= i < all.len() && 0 <= j < all.len() && i != j implies all[i] != all[j] by {
                bytes::lemma_name_order(all[i], all[i], all[i]);
                if i < j {
                    assert(bytes::name_lt(all[i], all[j]));
                } else {
                    assert(bytes::name_lt(all[j], all[i]));
                }
            }
            all.unique_seq_to_set();
            assert forall|id: Seq<char>| #[trigger]
                count_laws::visible_ids(self@).contains(id) <==> all.to_set().contains(id) by {
                assert(all.contains(id) <==> engine_read::visible(self@, id) is Some);
            }
            assert(count_laws::visible_ids(self@) =~= all.to_set());
        }
        ErasureStats {
            requested: plan.requested,
            tombstoned: plan.tombstoned,
            absent: plan.absent,
            remaining: left.len(),
            refold: if plan.tombstoned == 0 {
                None
            } else {
                refold
            },
        }
    }

    /// What follows a step of an erasure.
    pub fn next_erasure_step(&self, step: ErasureStep) -> (r: ErasureStep)
        ensures
            r == step_after(step, self@.parts.len()),
    {
        match step {
            ErasureStep::Apply => ErasureStep::Sync,
            ErasureStep::Sync => ErasureStep::Flush,
            ErasureStep::Flush => if self.parts.len() > 1 {
                ErasureStep::MergeAll
            } else {
                ErasureStep::Refold
            },
            ErasureStep::MergeAll => ErasureStep::Refold,
            ErasureStep::Refold => ErasureStep::Done,
            ErasureStep::Done => ErasureStep::Done,
        }
    }
}

// ---------------------------------------------------------------------------------------------
// What an erasure leaves.
// ---------------------------------------------------------------------------------------------
pub proof fn lemma_erasable(s: StoreView, ids: Seq<Seq<char>>, n: nat, id: Seq<char>)
    requires
        n <= ids.len(),
    ensures
        erasable(s, ids, n).contains(id) <==> named_among(ids, n as int, id)
            && engine_read::visible(s, id) is Some,
    decreases n,
{
    if n > 0 {
        lemma_erasable(s, ids, (n - 1) as nat, id);
        let before = erasable(s, ids, (n - 1) as nat);
        let after = erasable(s, ids, n);
        let last = ids[n - 1];
        if named_among(ids, n - 1, id) {
            let i = choose|i: int| 0 <= i < n - 1 && #[trigger] ids[i] == id;
            assert(ids[i] == id);
            assert(named_among(ids, n as int, id));
        }
        if id == last {
            assert(named_among(ids, n as int, id));
        }
        if named_among(ids, n as int, id) && id != last {
            let i = choose|i: int| 0 <= i < n && #[trigger] ids[i] == id;
            assert(named_among(ids, n - 1, id));
        }
        if after.len() > before.len() {
            assert(after[after.len() - 1] == last);
            if before.contains(id) {
                let k = choose|k: int| 0 <= k < before.len() && before[k] == id;
                assert(after[k] == id);
            }
            if after.contains(id) && id != last {
                let k = choose|k: int| 0 <= k < after.len() && after[k] == id;
                assert(before[k] == id);
            }
        }
    }
}

proof fn lemma_last_deletion(ids: Seq<Seq<char>>, id: Seq<char>, n: nat)
    requires
        n <= ids.len(),
    ensures
        match engine_laws::last_item(deletions(ids), id, n) {
            None => !named_among(ids, n as int, id),
            Some(item) => item is Delete && named_among(ids, n as int, id),
        },
    decreases n,
{
    if n > 0 {
        lemma_last_deletion(ids, id, (n - 1) as nat);
        let items = deletions(ids);
        assert(items[n - 1] == ItemView::Delete { id: ids[n - 1] });
        if ids[n - 1] == id {
            assert(named_among(ids, n as int, id));
        } else {
            if named_among(ids, n as int, id) {
                let i = choose|i: int| 0 <= i < n && #[trigger] ids[i] == id;
                assert(named_among(ids, n - 1, id));
            }
            if named_among(ids, n - 1, id) {
                let i = choose|i: int| 0 <= i < n - 1 && #[trigger] ids[i] == id;
                assert(ids[i] == id);
            }
        }
    }
}

/// After an erasure's deletions no named record is visible, and every other one is what it was.
pub proof fn lemma_erasure_visible(
    s: StoreView,
    t: StoreView,
    ids: Seq<Seq<char>>,
    id: Seq<char>,
)
    requires
        engine::store_ok(s),
        batch_apply::apply_outcome(s, t, deletions(erasable(s, ids, ids.len())), Ok(())),
    ensures
        ids.contains(id) ==> engine_read::visible(t, id) is None,
        !ids.contains(id) ==> engine_read::visible(t, id) == engine_read::visible(s, id),
{
    let gone = erasable(s, ids, ids.len());
    lemma_erasable(s, ids, ids.len(), id);
    lemma_last_deletion(gone, id, gone.len());
    engine_laws::lemma_apply_visible(s, t, deletions(gone), id);
    assert(ids.contains(id) <==> named_among(ids, ids.len() as int, id));
    assert(gone.contains(id) <==> named_among(gone, gone.len() as int, id));
}

/// After a refold nothing is left of a record that was not visible: no part has a row for it.
pub proof fn lemma_refold_drops(
    s: StoreView,
    p: RefoldView,
    encoded: Seq<EncodedPart>,
    m: ManifestView,
    id: Seq<char>,
    q: int,
)
    requires
        engine::store_ok(s),
        s.mem.len() == 0,
        s.parts.len() > 0,
        refold::refold_plan(s) == Ok::<RefoldView, RefoldError>(p),
        engine_read::visible(s, id) is None,
        0 <= q < p.parts.len(),
    ensures
        part::row_of(refold::refolded_store(s, p, encoded, m).parts[q].rows, id) is None,
{
    let t = refold::refolded_store(s, p, encoded, m);
    refold_laws::lemma_refold_visible(s, p, encoded, m, id);
    refold_laws::lemma_refold_records(s, p, encoded, m, id);
    read::lemma_newest(t.parts, id);
}

} // verus!
