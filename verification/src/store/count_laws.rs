//! Counting: how many records a store shows, and how its rows divide.

use crate::bytes;
use crate::part;
use crate::part::PartView;
use crate::store::audit;
use crate::store::engine;
use crate::store::engine::StoreView;
use crate::store::engine_read;
use crate::store::read;
use crate::store::read::Verdict;
use crate::store::refold;
use crate::store::refold::{RefoldError, RefoldView};
use vstd::prelude::*;

verus! {

/// The ids that parts show.
pub open spec fn shown(parts: Seq<PartView>) -> Set<Seq<char>> {
    Set::new(|id: Seq<char>| read::current(parts, id) is Some)
}

/// The ids that a store shows.
pub open spec fn visible_ids(s: StoreView) -> Set<Seq<char>> {
    Set::new(|id: Seq<char>| engine_read::visible(s, id) is Some)
}

/// How many rows the first `n` parts have.
pub open spec fn physical_rows(parts: Seq<PartView>, n: nat) -> nat
    decreases n,
{
    if n == 0 {
        0
    } else {
        physical_rows(parts, (n - 1) as nat) + parts[n - 1].rows.len()
    }
}

proof fn lemma_verdicts_of_part(parts: Seq<PartView>, p: int, n: nat)
    ensures
        read::verdict_count(parts, p, n, Verdict::Live) + read::verdict_count(
            parts,
            p,
            n,
            Verdict::Superseded,
        ) + read::verdict_count(parts, p, n, Verdict::Tombstone) == n,
    decreases n,
{
    if n > 0 {
        lemma_verdicts_of_part(parts, p, (n - 1) as nat);
    }
}

/// Every physical row is live, superseded or a tombstone.
pub proof fn lemma_rows_divide(parts: Seq<PartView>, n: nat)
    ensures
        refold::verdicts(parts, n, Verdict::Live) + refold::verdicts(
            parts,
            n,
            Verdict::Superseded,
        ) + refold::verdicts(parts, n, Verdict::Tombstone) == physical_rows(parts, n),
    decreases n,
{
    if n > 0 {
        lemma_rows_divide(parts, (n - 1) as nat);
        lemma_verdicts_of_part(parts, n - 1, parts[n - 1].rows.len());
    }
}

/// The ids of the live rows among the first `n` of a part.
pub open spec fn live_in(parts: Seq<PartView>, p: int, n: nat) -> Seq<Seq<char>>
    decreases n,
{
    if n == 0 {
        Seq::empty()
    } else {
        let before = live_in(parts, p, (n - 1) as nat);
        if read::verdict(parts, p, n - 1) == Verdict::Live {
            before.push(parts[p].rows[n - 1].id)
        } else {
            before
        }
    }
}

/// The ids of the live rows of the first `n` parts.
pub open spec fn live_ids(parts: Seq<PartView>, n: nat) -> Seq<Seq<char>>
    decreases n,
{
    if n == 0 {
        Seq::empty()
    } else {
        live_ids(parts, (n - 1) as nat) + live_in(parts, n - 1, parts[n - 1].rows.len())
    }
}

pub proof fn lemma_live_in(parts: Seq<PartView>, p: int, n: nat)
    requires
        0 <= p < parts.len(),
        n <= parts[p].rows.len(),
        part::part_sound(parts[p]),
    ensures
        live_in(parts, p, n).len() == read::verdict_count(parts, p, n, Verdict::Live),
        live_in(parts, p, n).no_duplicates(),
        forall|id: Seq<char>| #[trigger]
            live_in(parts, p, n).contains(id) <==> exists|r: int|
                0 <= r < n && (#[trigger] parts[p].rows[r]).id == id && read::verdict(parts, p, r)
                    == Verdict::Live,
    decreases n,
{
    if n > 0 {
        lemma_live_in(parts, p, (n - 1) as nat);
        let before = live_in(parts, p, (n - 1) as nat);
        let after = live_in(parts, p, n);
        let last = parts[p].rows[n - 1].id;
        if read::verdict(parts, p, n - 1) == Verdict::Live {
            assert(!before.contains(last)) by {
                if before.contains(last) {
                    let r = choose|r: int|
                        0 <= r < n - 1 && (#[trigger] parts[p].rows[r]).id == last && read::verdict(
                            parts,
                            p,
                            r,
                        ) == Verdict::Live;
                    assert(bytes::name_lt(parts[p].rows[r].id, parts[p].rows[n - 1].id));
                    bytes::lemma_name_order(last, last, last);
                }
            }
            assert(after[after.len() - 1] == last);
            assert forall|i: int, j: int|
                0 <= i < after.len() && 0 <= j < after.len() && i != j implies after[i]
                != after[j] by {
                if i < before.len() && j < before.len() {
                    assert(after[i] == before[i] && after[j] == before[j]);
                } else if i < before.len() {
                    assert(before.contains(before[i]));
                } else {
                    assert(before.contains(before[j]));
                }
            }
            assert forall|id: Seq<char>| #[trigger] after.contains(id) <==> exists|r: int|
                0 <= r < n && (#[trigger] parts[p].rows[r]).id == id && read::verdict(parts, p, r)
                    == Verdict::Live by {
                if before.contains(id) {
                    let k = choose|k: int| 0 <= k < before.len() && before[k] == id;
                    assert(after[k] == id);
                }
                if after.contains(id) && id != last {
                    let k = choose|k: int| 0 <= k < after.len() && after[k] == id;
                    assert(before[k] == id);
                }
            }
        }
    }
}

pub proof fn lemma_live_ids(parts: Seq<PartView>, n: nat)
    requires
        n <= parts.len(),
        part::parts_sound(parts),
    ensures
        live_ids(parts, n).len() == refold::verdicts(parts, n, Verdict::Live),
        live_ids(parts, n).no_duplicates(),
        forall|id: Seq<char>| #[trigger]
            live_ids(parts, n).contains(id) <==> exists|p: int|
                0 <= p < n && #[trigger] live_in(parts, p, parts[p].rows.len()).contains(id),
    decreases n,
{
    if n > 0 {
        lemma_live_ids(parts, (n - 1) as nat);
        let before = live_ids(parts, (n - 1) as nat);
        let rows = parts[n - 1].rows;
        let more = live_in(parts, n - 1, rows.len());
        let after = live_ids(parts, n);
        assert(part::part_sound(parts[n - 1]));
        lemma_live_in(parts, n - 1, rows.len());
        assert forall|id: Seq<char>| !(before.contains(id) && #[trigger] more.contains(id)) by {
            if before.contains(id) && more.contains(id) {
                let p = choose|p: int|
                    0 <= p < n - 1 && #[trigger] live_in(parts, p, parts[p].rows.len()).contains(
                        id,
                    );
                assert(part::part_sound(parts[p]));
                lemma_live_in(parts, p, parts[p].rows.len());
                let r = choose|r: int|
                    0 <= r < parts[p].rows.len() && (#[trigger] parts[p].rows[r]).id == id
                        && read::verdict(parts, p, r) == Verdict::Live;
                let k = choose|k: int|
                    0 <= k < rows.len() && (#[trigger] parts[n - 1].rows[k]).id == id
                        && read::verdict(parts, n - 1, k) == Verdict::Live;
                assert(parts[n - 1].rows[k].id == id);
                assert(part::row_of(parts[n - 1].rows, id) is Some);
                assert(read::held_after(parts, p, id));
            }
        }
        assert forall|i: int, j: int|
            0 <= i < after.len() && 0 <= j < after.len() && i != j implies after[i] != after[j] by {
            if i < before.len() && j < before.len() {
                assert(after[i] == before[i] && after[j] == before[j]);
            } else if i < before.len() {
                assert(before.contains(after[i]));
                assert(after[j] == more[j - before.len()]);
                assert(more.contains(after[j]));
            } else if j < before.len() {
                assert(before.contains(after[j]));
                assert(after[i] == more[i - before.len()]);
                assert(more.contains(after[i]));
            } else {
                assert(after[i] == more[i - before.len()]);
                assert(after[j] == more[j - before.len()]);
            }
        }
        assert forall|id: Seq<char>| #[trigger] after.contains(id) <==> exists|p: int|
            0 <= p < n && #[trigger] live_in(parts, p, parts[p].rows.len()).contains(id) by {
            if after.contains(id) {
                let k = choose|k: int| 0 <= k < after.len() && after[k] == id;
                if k < before.len() {
                    assert(before[k] == id);
                    assert(before.contains(id));
                } else {
                    assert(more[k - before.len()] == id);
                    assert(more.contains(id));
                }
            }
            if before.contains(id) {
                let k = choose|k: int| 0 <= k < before.len() && before[k] == id;
                assert(after[k] == id);
            }
            if more.contains(id) {
                let k = choose|k: int| 0 <= k < more.len() && more[k] == id;
                assert(after[before.len() + k] == id);
            }
            if exists|p: int|
                0 <= p < n && #[trigger] live_in(parts, p, parts[p].rows.len()).contains(id) {
                let p = choose|p: int|
                    0 <= p < n && #[trigger] live_in(parts, p, parts[p].rows.len()).contains(id);
                if p < n - 1 {
                    assert(before.contains(id));
                }
            }
        }
    }
}

/// The ids of the live rows are the shown ones, each once.
pub proof fn lemma_live_shown(parts: Seq<PartView>)
    requires
        part::parts_sound(parts),
    ensures
        live_ids(parts, parts.len()).no_duplicates(),
        forall|id: Seq<char>| #[trigger]
            live_ids(parts, parts.len()).contains(id) <==> read::current(parts, id) is Some,
{
    let n = parts.len();
    let all = live_ids(parts, n);
    lemma_live_ids(parts, n);
    assert forall|id: Seq<char>| #[trigger] all.contains(id) <==> read::current(
        parts,
        id,
    ) is Some by {
        read::lemma_newest(parts, id);
        if read::current(parts, id) is Some {
            let (p, r) = read::newest(parts, id)->0;
            assert(part::part_sound(parts[p as int]));
            lemma_live_in(parts, p as int, parts[p as int].rows.len());
            assert(read::verdict(parts, p as int, r as int) == Verdict::Live);
            assert(parts[p as int].rows[r as int].id == id);
            assert(live_in(parts, p as int, parts[p as int].rows.len()).contains(id));
        }
        if all.contains(id) {
            let p = choose|p: int|
                0 <= p < n && #[trigger] live_in(parts, p, parts[p].rows.len()).contains(id);
            assert(part::part_sound(parts[p]));
            lemma_live_in(parts, p, parts[p].rows.len());
            let r = choose|r: int|
                0 <= r < parts[p].rows.len() && (#[trigger] parts[p].rows[r]).id == id
                    && read::verdict(parts, p, r) == Verdict::Live;
            part::lemma_row_of(parts[p].rows, id, r);
            let (q, k) = read::newest(parts, id)->0;
            if q > p {
                assert(part::row_of(parts[q as int].rows, id) is Some);
                assert(read::held_after(parts, p, id));
            }
            assert(q == p);
        }
    }
}

/// As many rows are live as ids are shown.
pub proof fn lemma_live_count(parts: Seq<PartView>)
    requires
        part::parts_sound(parts),
    ensures
        shown(parts).finite(),
        shown(parts).len() == refold::verdicts(parts, parts.len(), Verdict::Live),
{
    let all = live_ids(parts, parts.len());
    lemma_live_ids(parts, parts.len());
    lemma_live_shown(parts);
    all.unique_seq_to_set();
    assert forall|id: Seq<char>| #[trigger] shown(parts).contains(id) <==> all.to_set().contains(
        id,
    ) by {
        assert(all.contains(id) <==> read::current(parts, id) is Some);
    }
    assert(shown(parts) =~= all.to_set());
}

/// What a refold reports of records: it kept one for each id that was shown, and dropped every
/// other physical row.
pub proof fn lemma_refold_counts(s: StoreView, p: RefoldView)
    requires
        engine::store_ok(s),
        s.mem.len() == 0,
        refold::refold_plan(s) == Ok::<RefoldView, RefoldError>(p),
    ensures
        visible_ids(s).finite(),
        p.stats.records_kept == audit::fit(visible_ids(s).len()),
        physical_rows(s.parts, s.parts.len()) <= usize::MAX ==> p.stats.records_kept
            + p.stats.records_dropped == physical_rows(s.parts, s.parts.len()),
{
    lemma_live_count(s.parts);
    lemma_rows_divide(s.parts, s.parts.len());
    assert forall|id: Seq<char>| #[trigger] visible_ids(s).contains(id) <==> shown(
        s.parts,
    ).contains(id) by {
        assert(part::row_of(s.mem, id) is None);
    }
    assert(visible_ids(s) =~= shown(s.parts));
}

} // verus!
