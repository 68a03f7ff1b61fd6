//! The read core: everything answerable from committed parts plus the fold.
//!
//! # Version resolution, in one rule
//!
//! Parts are ordered oldest to newest, so the first part found scanning backwards decides, and if
//! it says the id is deleted the answer is absent. Older parts still holding the id are superseded,
//! not consulted. Every function here obeys that one rule.

use crate::fold::{Fold, FoldView};
use crate::part;
use crate::part::{Part, PartView, ReadError};
use crate::types;
use crate::types::{Record, RecordView};
use vstd::prelude::*;

verus! {

/// Where the newest row of an id is: part and row.
pub open spec fn newest(parts: Seq<PartView>, id: Seq<char>) -> Option<(nat, nat)>
    decreases parts.len(),
{
    if parts.len() == 0 {
        None
    } else {
        match part::row_of(parts.last().rows, id) {
            Some(row) => Some(((parts.len() - 1) as nat, row)),
            None => newest(parts.drop_last(), id),
        }
    }
}

/// Where the live row of an id is: its newest row, unless that is a tombstone.
pub open spec fn located(parts: Seq<PartView>, id: Seq<char>) -> Option<(nat, nat)> {
    match newest(parts, id) {
        Some((p, row)) => if parts[p as int].rows[row as int].record is Some {
            Some((p, row))
        } else {
            None
        },
        None => None,
    }
}

/// The committed record of an id.
pub open spec fn current(parts: Seq<PartView>, id: Seq<char>) -> Option<RecordView> {
    match newest(parts, id) {
        Some((p, row)) => parts[p as int].rows[row as int].record,
        None => None,
    }
}

/// The committed value of a record's content.
pub open spec fn value_of(parts: Seq<PartView>, f: FoldView, id: Seq<char>, name: Seq<char>) -> Result<
    Option<Seq<u8>>,
    ReadError,
> {
    match located(parts, id) {
        None => Ok(None),
        Some((p, row)) => match part::content_named(
            parts[p as int].rows[row as int].record->0.contents,
            name,
        ) {
            None => Ok(None),
            Some(c) => match part::program_bytes(parts[p as int].pieces, f, c.ops) {
                Ok(b) => Ok(Some(b)),
                Err(e) => Err(e),
            },
        },
    }
}

/// The newest row is in bounds, carries the id, and no newer part holds one.
pub proof fn lemma_newest(parts: Seq<PartView>, id: Seq<char>)
    ensures
        match newest(parts, id) {
            Some((p, row)) => {
                &&& p < parts.len()
                &&& row < parts[p as int].rows.len()
                &&& parts[p as int].rows[row as int].id == id
                &&& part::row_of(parts[p as int].rows, id) == Some(row)
                &&& forall|q: int|
                    p < q < parts.len() ==> part::row_of((#[trigger] parts[q]).rows, id) is None
            },
            None => forall|q: int|
                0 <= q < parts.len() ==> part::row_of((#[trigger] parts[q]).rows, id) is None,
        },
    decreases parts.len(),
{
    if parts.len() > 0 {
        if part::row_of(parts.last().rows, id) is None {
            let before = parts.drop_last();
            lemma_newest(before, id);
            assert forall|q: int| 0 <= q < parts.len() - 1 implies before[q] == parts[q] by {}
        }
    }
}

/// Where an id's live row is.
pub fn locate(parts: &Vec<Part>, id: &str) -> (r: Option<(usize, usize)>)
    requires
        part::parts_sound(part::parts_view(parts@)),
    ensures
        located(part::parts_view(parts@), id@) == (match r {
            Some((p, row)) => Some((p as nat, row as nat)),
            None => None,
        }),
        r matches Some((p, row)) ==> p < parts@.len() && row < parts@[p as int].rows@.len(),
{
    let ghost all = part::parts_view(parts@);
    let mut i: usize = parts.len();
    assert(all.take(i as int) =~= all);
    while i > 0
        invariant
            all == part::parts_view(parts@),
            part::parts_sound(all),
            i <= parts@.len(),
            newest(all, id@) == newest(all.take(i as int), id@),
        decreases i,
    {
        i = i - 1;
        let p = &parts[i];
        proof {
            assert(all[i as int] == p@);
            assert(all.take(i + 1).last() == p@);
            assert(all.take(i + 1).drop_last() =~= all.take(i as int));
        }
        if let Some(row) = p.find(id) {
            if p.is_tombstone(row) {
                return None;
            }
            return Some((i, row));
        }
    }
    None
}

/// The newest committed version of an id, or `None` if it is absent or deleted.
pub fn get(parts: &Vec<Part>, id: &str) -> (r: Option<Record>)
    requires
        part::parts_sound(part::parts_view(parts@)),
    ensures
        part::record_view(r) == current(part::parts_view(parts@), id@),
{
    proof {
        lemma_newest(part::parts_view(parts@), id@);
    }
    match locate(parts, id) {
        Some((p, row)) => {
            proof {
                let all = part::parts_view(parts@);
                assert(all[p as int].rows[row as int] == parts@[p as int].rows@[row as int]@);
            }
            match &parts[p].rows[row].record {
                Some(record) => Some(record.clone()),
                None => None,
            }
        },
        None => None,
    }
}

/// Whether an id exists in the committed state.
pub fn record_exists(parts: &Vec<Part>, id: &str) -> (r: bool)
    requires
        part::parts_sound(part::parts_view(parts@)),
    ensures
        r == (current(part::parts_view(parts@), id@) is Some),
{
    proof {
        lemma_newest(part::parts_view(parts@), id@);
    }
    locate(parts, id).is_some()
}

/// Byte-exact named content of an id, or `None` when the record or the value is absent.
pub fn reconstruct_content(parts: &Vec<Part>, fold: &Fold, id: &str, name: &str) -> (r: Result<
    Option<Vec<u8>>,
    ReadError,
>)
    requires
        part::parts_sound(part::parts_view(parts@)),
    ensures
        value_of(part::parts_view(parts@), fold@, id@, name@) == (match r {
            Ok(Some(b)) => Ok::<Option<Seq<u8>>, ReadError>(Some(b@)),
            Ok(None) => Ok(None),
            Err(e) => Err(e),
        }),
{
    proof {
        lemma_newest(part::parts_view(parts@), id@);
    }
    match locate(parts, id) {
        None => Ok(None),
        Some((p, row)) => {
            let owner = &parts[p];
            proof {
                let all = part::parts_view(parts@);
                assert(all[p as int] == owner@);
                assert(all[p as int].rows[row as int] == owner.rows@[row as int]@);
            }
            match &owner.rows[row].record {
                None => Ok(None),
                Some(record) => match part::find_content(&record.contents, name) {
                    None => Ok(None),
                    Some(k) => match part::run_program(
                        &owner.pieces,
                        fold,
                        &record.contents[k].ops,
                    ) {
                        Ok(b) => Ok(Some(b)),
                        Err(e) => Err(e),
                    },
                },
            }
        },
    }
}

/// Byte-exact content of an id under the conventional name, or `None`.
pub fn reconstruct(parts: &Vec<Part>, fold: &Fold, id: &str) -> (r: Result<
    Option<Vec<u8>>,
    ReadError,
>)
    requires
        part::parts_sound(part::parts_view(parts@)),
    ensures
        value_of(part::parts_view(parts@), fold@, id@, types::BODY_CONTENT@) == (match r {
            Ok(Some(b)) => Ok::<Option<Seq<u8>>, ReadError>(Some(b@)),
            Ok(None) => Ok(None),
            Err(e) => Err(e),
        }),
{
    reconstruct_content(parts, fold, id, types::BODY_CONTENT)
}

// ---------------------------------------------------------------------------------------------
// Visibility.
// ---------------------------------------------------------------------------------------------
/// What the rule makes of one row.
#[derive(Clone, Copy, Debug, PartialEq, Eq, Structural)]
pub enum Verdict {
    /// A newer part holds the id.
    Superseded,
    /// It decides, and it deletes.
    Tombstone,
    /// It decides, and it is the record.
    Live,
}

/// Whether a part newer than `p` holds an id.
pub open spec fn held_after(parts: Seq<PartView>, p: int, id: Seq<char>) -> bool {
    exists|q: int|
        p < q < parts.len() && part::row_of((#[trigger] parts[q]).rows, id) is Some
}

/// What the rule makes of a row.
pub open spec fn verdict(parts: Seq<PartView>, p: int, row: int) -> Verdict {
    if held_after(parts, p, parts[p].rows[row].id) {
        Verdict::Superseded
    } else if parts[p].rows[row].record is None {
        Verdict::Tombstone
    } else {
        Verdict::Live
    }
}

/// The live rows among the first `n` of a part, in order.
pub open spec fn live_rows(parts: Seq<PartView>, p: int, n: nat) -> Seq<usize>
    decreases n,
{
    if n == 0 {
        Seq::empty()
    } else {
        let before = live_rows(parts, p, (n - 1) as nat);
        if verdict(parts, p, n - 1) == Verdict::Live {
            before.push((n - 1) as usize)
        } else {
            before
        }
    }
}

/// How many of the first `n` rows of a part get a verdict.
pub open spec fn verdict_count(parts: Seq<PartView>, p: int, n: nat, v: Verdict) -> nat
    decreases n,
{
    if n == 0 {
        0
    } else {
        verdict_count(parts, p, (n - 1) as nat, v) + if verdict(parts, p, n - 1) == v {
            1nat
        } else {
            0
        }
    }
}

/// How many rows of the parts from `p` on get a verdict.
pub open spec fn verdict_total(parts: Seq<PartView>, p: int, v: Verdict) -> nat
    decreases parts.len() - p,
{
    if p >= parts.len() || p < 0 {
        0
    } else {
        verdict_count(parts, p, parts[p].rows.len(), v) + verdict_total(parts, p + 1, v)
    }
}

/// How many rows the parts from `p` on have.
pub open spec fn rows_total(parts: Seq<PartView>, p: int) -> nat
    decreases parts.len() - p,
{
    if p >= parts.len() || p < 0 {
        0
    } else {
        parts[p].rows.len() + rows_total(parts, p + 1)
    }
}

proof fn lemma_verdict_bound(parts: Seq<PartView>, p: int, n: nat, v: Verdict)
    ensures
        verdict_count(parts, p, n, v) <= n,
    decreases n,
{
    if n > 0 {
        lemma_verdict_bound(parts, p, (n - 1) as nat, v);
    }
}

proof fn lemma_total_bound(parts: Seq<PartView>, p: int, v: Verdict)
    ensures
        verdict_total(parts, p, v) <= rows_total(parts, p),
    decreases parts.len() - p,
{
    if 0 <= p < parts.len() {
        lemma_verdict_bound(parts, p, parts[p].rows.len(), v);
        lemma_total_bound(parts, p + 1, v);
    }
}

proof fn lemma_total_grows(parts: Seq<PartView>, p: int, q: int)
    requires
        0 <= p <= q,
    ensures
        rows_total(parts, q) <= rows_total(parts, p),
    decreases q - p,
{
    if p < q {
        lemma_total_grows(parts, p + 1, q);
    }
}

/// Whether the rows of all parts, and some more, can be counted.
pub fn rows_fit(parts: &Vec<Part>, more: usize) -> (r: bool)
    ensures
        r == (rows_total(part::parts_view(parts@), 0) + more <= usize::MAX),
{
    let ghost all = part::parts_view(parts@);
    let mut total: usize = more;
    let mut p: usize = parts.len();
    while p > 0
        invariant
            all == part::parts_view(parts@),
            p <= parts@.len(),
            total == rows_total(all, p as int) + more,
        decreases p,
    {
        p = p - 1;
        assert(all[p as int] == parts@[p as int]@);
        assert(all[p as int].rows.len() == parts@[p as int].rows@.len());
        match total.checked_add(parts[p].rows.len()) {
            Some(sum) => {
                total = sum;
            },
            None => {
                proof {
                    lemma_total_grows(all, 0, p as int);
                }
                return false;
            },
        }
    }
    true
}

/// The live rows of every part, under the newest-wins rule.
#[derive(Debug, PartialEq, Eq)]
pub struct Visibility {
    pub rows: Vec<Vec<usize>>,
    /// Older rows hidden by a newer record or tombstone.
    pub superseded: usize,
    /// Deciding rows that are tombstones.
    pub tombstones: usize,
}

/// What [`visibility`] reports.
pub open spec fn visible(parts: Seq<PartView>, v: Visibility) -> bool {
    &&& v.rows@.len() == parts.len()
    &&& forall|p: int|
        0 <= p < parts.len() ==> (#[trigger] v.rows@[p])@ == live_rows(
            parts,
            p,
            parts[p].rows.len(),
        )
    &&& v.superseded == verdict_total(parts, 0, Verdict::Superseded)
    &&& v.tombstones == verdict_total(parts, 0, Verdict::Tombstone)
}

pub fn newer_holds(parts: &Vec<Part>, p: usize, id: &str) -> (r: bool)
    requires
        part::parts_sound(part::parts_view(parts@)),
        p < parts@.len(),
    ensures
        r == held_after(part::parts_view(parts@), p as int, id@),
{
    let ghost all = part::parts_view(parts@);
    let mut q: usize = parts.len();
    while q > p + 1
        invariant
            all == part::parts_view(parts@),
            part::parts_sound(all),
            p < parts@.len(),
            p < q <= parts@.len(),
            forall|k: int| q <= k < all.len() ==> part::row_of((#[trigger] all[k]).rows, id@) is None,
        decreases q,
    {
        q = q - 1;
        assert(all[q as int] == parts@[q as int]@);
        if parts[q].find(id).is_some() {
            return true;
        }
    }
    false
}

/// The live rows of every part, and how many rows the rule hid.
pub fn visibility(parts: &Vec<Part>) -> (r: Visibility)
    requires
        part::parts_sound(part::parts_view(parts@)),
        rows_total(part::parts_view(parts@), 0) <= usize::MAX,
    ensures
        visible(part::parts_view(parts@), r),
{
    let ghost all = part::parts_view(parts@);
    let mut reversed: Vec<Vec<usize>> = Vec::new();
    let mut superseded: usize = 0;
    let mut tombstones: usize = 0;
    let mut p: usize = parts.len();
    proof {
        lemma_total_bound(all, 0, Verdict::Superseded);
        lemma_total_bound(all, 0, Verdict::Tombstone);
    }
    while p > 0
        invariant
            all == part::parts_view(parts@),
            part::parts_sound(all),
            p <= parts@.len(),
            verdict_total(all, 0, Verdict::Superseded) <= usize::MAX,
            verdict_total(all, 0, Verdict::Tombstone) <= usize::MAX,
            superseded == verdict_total(all, p as int, Verdict::Superseded),
            tombstones == verdict_total(all, p as int, Verdict::Tombstone),
            reversed@.len() == parts@.len() - p,
            forall|k: int|
                0 <= k < reversed@.len() ==> (#[trigger] reversed@[k])@ == live_rows(
                    all,
                    all.len() - 1 - k,
                    all[all.len() - 1 - k].rows.len(),
                ),
        decreases p,
    {
        p = p - 1;
        let this = &parts[p];
        assert(all[p as int] == this@);
        let ghost old_superseded = superseded;
        let ghost old_tombstones = tombstones;
        proof {
            lemma_total_suffix(all, p as int, Verdict::Superseded);
            lemma_total_suffix(all, p as int, Verdict::Tombstone);
        }
        let mut rows: Vec<usize> = Vec::new();
        let mut row: usize = 0;
        while row < this.rows.len()
            invariant
                all == part::parts_view(parts@),
                part::parts_sound(all),
                p < parts@.len(),
                *this == parts@[p as int],
                all[p as int] == this@,
                row <= this.rows@.len(),
                old_superseded + verdict_count(
                    all,
                    p as int,
                    this.rows@.len(),
                    Verdict::Superseded,
                ) <= usize::MAX,
                old_tombstones + verdict_count(
                    all,
                    p as int,
                    this.rows@.len(),
                    Verdict::Tombstone,
                ) <= usize::MAX,
                superseded == old_superseded + verdict_count(
                    all,
                    p as int,
                    row as nat,
                    Verdict::Superseded,
                ),
                tombstones == old_tombstones + verdict_count(
                    all,
                    p as int,
                    row as nat,
                    Verdict::Tombstone,
                ),
                rows@ == live_rows(all, p as int, row as nat),
            decreases this.rows.len() - row,
        {
            assert(all[p as int].rows[row as int] == this.rows@[row as int]@);
            proof {
                lemma_count_monotone(
                    all,
                    p as int,
                    (row + 1) as nat,
                    this.rows@.len(),
                    Verdict::Superseded,
                );
                lemma_count_monotone(
                    all,
                    p as int,
                    (row + 1) as nat,
                    this.rows@.len(),
                    Verdict::Tombstone,
                );
            }
            if newer_holds(parts, p, this.rows[row].id.as_str()) {
                superseded = superseded + 1;
            } else if this.is_tombstone(row) {
                tombstones = tombstones + 1;
            } else {
                rows.push(row);
            }
            row = row + 1;
        }
        let ghost before = reversed@;
        reversed.push(rows);
        proof {
            assert forall|k: int| 0 <= k < reversed@.len() implies (#[trigger] reversed@[k])@
                == live_rows(
                all,
                all.len() - 1 - k,
                all[all.len() - 1 - k].rows.len(),
            ) by {
                if k < before.len() {
                    assert(reversed@[k] == before[k]);
                }
            }
        }
    }
    let mut rows: Vec<Vec<usize>> = Vec::new();
    let n: usize = parts.len();
    while rows.len() < n
        invariant
            all == part::parts_view(parts@),
            n == parts@.len(),
            rows@.len() <= n,
            rows@.len() + reversed@.len() == n,
            forall|k: int|
                0 <= k < reversed@.len() ==> (#[trigger] reversed@[k])@ == live_rows(
                    all,
                    all.len() - 1 - k,
                    all[all.len() - 1 - k].rows.len(),
                ),
            forall|k: int|
                0 <= k < rows@.len() ==> (#[trigger] rows@[k])@ == live_rows(
                    all,
                    k,
                    all[k].rows.len(),
                ),
        decreases n - rows.len(),
    {
        let ghost before = rows@;
        let ghost rest = reversed@;
        let next = reversed.pop().unwrap();
        proof {
            assert(next == rest.last());
            assert(rest[rest.len() - 1]@ == live_rows(
                all,
                before.len() as int,
                all[before.len() as int].rows.len(),
            ));
        }
        rows.push(next);
        proof {
            assert forall|k: int| 0 <= k < rows@.len() implies (#[trigger] rows@[k])@ == live_rows(
                all,
                k,
                all[k].rows.len(),
            ) by {
                if k < before.len() {
                    assert(rows@[k] == before[k]);
                }
            }
            assert forall|k: int| 0 <= k < reversed@.len() implies (#[trigger] reversed@[k])@
                == live_rows(
                all,
                all.len() - 1 - k,
                all[all.len() - 1 - k].rows.len(),
            ) by {
                assert(reversed@[k] == rest[k]);
            }
        }
    }
    Visibility { rows, superseded, tombstones }
}

proof fn lemma_total_suffix(parts: Seq<PartView>, p: int, v: Verdict)
    requires
        0 <= p <= parts.len(),
    ensures
        verdict_total(parts, p, v) <= verdict_total(parts, 0, v),
    decreases p,
{
    if p > 0 {
        lemma_total_suffix(parts, p - 1, v);
    }
}

proof fn lemma_count_monotone(parts: Seq<PartView>, p: int, k: nat, n: nat, v: Verdict)
    requires
        k <= n,
    ensures
        verdict_count(parts, p, k, v) <= verdict_count(parts, p, n, v),
    decreases n,
{
    if k < n {
        lemma_count_monotone(parts, p, k, (n - 1) as nat, v);
    }
}

/// A live row is exactly where its id is located.
pub proof fn lemma_live_is_located(parts: Seq<PartView>, p: int, row: int)
    requires
        part::parts_sound(parts),
        0 <= p < parts.len(),
        0 <= row < parts[p].rows.len(),
    ensures
        verdict(parts, p, row) == Verdict::Live <==> located(parts, parts[p].rows[row].id) == Some(
            (p as nat, row as nat),
        ),
{
    let id = parts[p].rows[row].id;
    assert(part::part_sound(parts[p]));
    part::lemma_row_of(parts[p].rows, id, row);
    lemma_newest(parts, id);
    match newest(parts, id) {
        Some((q, r)) => {
            if q < p {
                assert(part::row_of(parts[p].rows, id) is None);
            }
            if held_after(parts, p, id) {
                let k = choose|k: int|
                    p < k < parts.len() && part::row_of((#[trigger] parts[k]).rows, id) is Some;
                assert(q >= k);
            }
        },
        None => {},
    }
}

} // verus!
