//! The memtable: uncommitted rows, last write wins, in id order.
//!
//! A staged deletion is a row without a record. It must be a row rather than an absence, because it
//! has to shadow whatever older parts still say about the id.

use crate::bytes;
use crate::part;
use crate::part::{Row, RowView};
use vstd::prelude::*;

verus! {

/// Rows with one more, or one replaced, in id order.
pub open spec fn rows_put(rows: Seq<RowView>, row: RowView) -> Seq<RowView>
    decreases rows.len(),
{
    if rows.len() == 0 || bytes::name_lt(rows.last().id, row.id) {
        rows.push(row)
    } else if rows.last().id == row.id {
        rows.drop_last().push(row)
    } else {
        rows_put(rows.drop_last(), row).push(rows.last())
    }
}

/// A put keeps the order, gives the id its new row, and leaves every other id as it was.
pub proof fn lemma_rows_put(rows: Seq<RowView>, row: RowView)
    requires
        part::ids_ascending(rows),
    ensures
        part::ids_ascending(rows_put(rows, row)),
        rows_put(rows, row).len() <= rows.len() + 1,
        rows_put(rows, row).len() >= rows.len(),
        rows_put(rows, row).len() > 0,
        exists|i: int| 0 <= i < rows_put(rows, row).len() && #[trigger] rows_put(rows, row)[i] == row,
        forall|x: RowView|
            #[trigger] rows_put(rows, row).contains(x) <==> x == row || (rows.contains(x) && x.id
                != row.id),
        forall|n: Seq<char>|
            bytes::name_lt(row.id, n) && (rows.len() > 0 ==> bytes::name_lt(rows.last().id, n))
                ==> bytes::name_lt(rows_put(rows, row).last().id, n),
    decreases rows.len(),
{
    let r = rows_put(rows, row);
    bytes::lemma_name_order(row.id, row.id, row.id);
    if rows.len() == 0 || bytes::name_lt(rows.last().id, row.id) {
        assert(r[rows.len() as int] == row);
        assert forall|i: int, j: int| 0 <= i < j < r.len() implies bytes::name_lt(
            #[trigger] r[i].id,
            #[trigger] r[j].id,
        ) by {
            if j == rows.len() {
                if i < rows.len() - 1 {
                    assert(bytes::name_lt(rows[i].id, rows[rows.len() - 1].id));
                    bytes::lemma_name_order(rows[i].id, rows.last().id, row.id);
                }
            } else {
                assert(r[i] == rows[i] && r[j] == rows[j]);
            }
        }
        assert forall|x: RowView| #[trigger] r.contains(x) <==> x == row || (rows.contains(x)
            && x.id != row.id) by {
            if r.contains(x) {
                let i = choose|i: int| 0 <= i < r.len() && r[i] == x;
                if i < rows.len() {
                    assert(rows[i] == x);
                    assert(bytes::name_lt(r[i].id, r[rows.len() as int].id));
                }
            }
            if rows.contains(x) {
                let i = choose|i: int| 0 <= i < rows.len() && rows[i] == x;
                assert(r[i] == x);
            }
            if x == row {
                assert(r[rows.len() as int] == row);
            }
        }
    } else if rows.last().id == row.id {
        let k = rows.len() - 1;
        assert(r[k] == row);
        assert forall|i: int, j: int| 0 <= i < j < r.len() implies bytes::name_lt(
            #[trigger] r[i].id,
            #[trigger] r[j].id,
        ) by {
            assert(bytes::name_lt(rows[i].id, rows[j].id));
        }
        assert forall|x: RowView| #[trigger] r.contains(x) <==> x == row || (rows.contains(x)
            && x.id != row.id) by {
            if r.contains(x) {
                let i = choose|i: int| 0 <= i < r.len() && r[i] == x;
                if i < k {
                    assert(rows[i] == x);
                    assert(bytes::name_lt(rows[i].id, rows[k].id));
                }
            }
            if rows.contains(x) && x.id != row.id {
                let i = choose|i: int| 0 <= i < rows.len() && rows[i] == x;
                assert(r[i] == x);
            }
            if x == row {
                assert(r[k] == row);
            }
        }
    } else {
        let front = rows.drop_last();
        let last = rows.last();
        let f = rows_put(front, row);
        assert forall|i: int, j: int| 0 <= i < j < front.len() implies bytes::name_lt(
            #[trigger] front[i].id,
            #[trigger] front[j].id,
        ) by {
            assert(bytes::name_lt(rows[i].id, rows[j].id));
        }
        lemma_rows_put(front, row);
        bytes::lemma_name_order(row.id, last.id, last.id);
        if front.len() > 0 {
            assert(bytes::name_lt(rows[front.len() - 1].id, rows[front.len() as int].id));
        }
        assert(bytes::name_lt(f.last().id, last.id));
        assert forall|i: int, j: int| 0 <= i < j < r.len() implies bytes::name_lt(
            #[trigger] r[i].id,
            #[trigger] r[j].id,
        ) by {
            if j < f.len() {
                assert(r[i] == f[i] && r[j] == f[j]);
            } else {
                assert(r[i] == f[i]);
                if i < f.len() - 1 {
                    assert(bytes::name_lt(f[i].id, f[f.len() - 1].id));
                    bytes::lemma_name_order(f[i].id, f.last().id, last.id);
                }
            }
        }
        let at = choose|i: int| 0 <= i < f.len() && #[trigger] f[i] == row;
        assert(r[at] == row);
        assert forall|x: RowView| #[trigger] r.contains(x) <==> x == row || (rows.contains(x)
            && x.id != row.id) by {
            if r.contains(x) {
                let i = choose|i: int| 0 <= i < r.len() && r[i] == x;
                if i < f.len() {
                    assert(f[i] == x);
                    assert(f.contains(x));
                    if x != row {
                        let k = choose|k: int| 0 <= k < front.len() && front[k] == x;
                        assert(rows[k] == x);
                    }
                } else {
                    assert(rows[rows.len() - 1] == x);
                }
            }
            if rows.contains(x) && x.id != row.id {
                let k = choose|k: int| 0 <= k < rows.len() && rows[k] == x;
                if k < front.len() {
                    assert(front[k] == x);
                    assert(front.contains(x));
                    assert(f.contains(x));
                    let i = choose|i: int| 0 <= i < f.len() && f[i] == x;
                    assert(r[i] == x);
                } else {
                    assert(r[f.len() as int] == x);
                }
            }
            if x == row {
                assert(r[at] == row);
            }
        }
    }
}

/// What an id's row says: absent, deleted, or a record.
pub open spec fn row_at(rows: Seq<RowView>, id: Seq<char>) -> Option<RowView> {
    match part::row_of(rows, id) {
        Some(i) => Some(rows[i as int]),
        None => None,
    }
}

/// Reading after a put: the id has the new row, every other id what it had.
pub proof fn lemma_put_lookup(rows: Seq<RowView>, row: RowView, id: Seq<char>)
    requires
        part::ids_ascending(rows),
    ensures
        row_at(rows_put(rows, row), id) == if id == row.id {
            Some(row)
        } else {
            row_at(rows, id)
        },
{
    let r = rows_put(rows, row);
    lemma_rows_put(rows, row);
    if id == row.id {
        let i = choose|i: int| 0 <= i < r.len() && #[trigger] r[i] == row;
        part::lemma_row_of(r, id, i);
    } else {
        match part::row_of(rows, id) {
            Some(k) => {
                let x = rows[k as int];
                assert(x.id == id);
                assert(rows.contains(x));
                assert(r.contains(x));
                let i = choose|i: int| 0 <= i < r.len() && r[i] == x;
                part::lemma_row_of(r, id, i);
            },
            None => {
                if part::row_of(r, id) is Some {
                    let i = part::row_of(r, id)->0 as int;
                    let x = r[i];
                    assert(r.contains(x));
                    assert(rows.contains(x));
                    let k = choose|k: int| 0 <= k < rows.len() && rows[k] == x;
                    assert(rows[k].id == id);
                }
            },
        }
    }
}

/// A put of a row whose record carries the row's id keeps that true of every row.
pub proof fn lemma_put_agrees(rows: Seq<RowView>, row: RowView)
    requires
        part::ids_ascending(rows),
        part::ids_agree(rows),
        row.record is Some ==> row.record->0.id == row.id,
    ensures
        part::ids_agree(rows_put(rows, row)),
{
    let r = rows_put(rows, row);
    lemma_rows_put(rows, row);
    assert forall|i: int| 0 <= i < r.len() && (#[trigger] r[i]).record is Some implies r[i].record->0.id
        == r[i].id by {
        assert(r.contains(r[i]));
        if r[i] != row {
            let k = choose|k: int| 0 <= k < rows.len() && rows[k] == r[i];
            assert(rows[k].record is Some);
        }
    }
}

/// Put a row in its place, over one of the same id.
pub fn put_row(rows: &mut Vec<Row>, row: Row)
    ensures
        part::rows_view(final(rows)@) == rows_put(part::rows_view(old(rows)@), row@),
{
    let ghost all = part::rows_view(rows@);
    let mut i: usize = rows.len();
    assert(all.take(i as int) =~= all);
    assert(rows_put(all, row@) =~= rows_put(all.take(i as int), row@) + all.skip(i as int));
    while i > 0 && !bytes::str_lt(rows[i - 1].id.as_str(), row.id.as_str()) && !bytes::str_eq(
        rows[i - 1].id.as_str(),
        row.id.as_str(),
    )
        invariant
            all == part::rows_view(rows@),
            *rows == *old(rows),
            i <= rows@.len(),
            rows_put(all, row@) == rows_put(all.take(i as int), row@) + all.skip(i as int),
        decreases i,
    {
        proof {
            let t = all.take(i as int);
            assert(t.drop_last() =~= all.take(i - 1));
            assert(t.last() == all[i - 1]);
            assert(all[i - 1] == rows@[i - 1]@);
            assert(rows_put(all.take(i - 1), row@).push(all[i - 1]) + all.skip(i as int)
                =~= rows_put(all.take(i - 1), row@) + all.skip(i - 1));
        }
        i = i - 1;
    }
    let replace = if i > 0 {
        bytes::str_eq(rows[i - 1].id.as_str(), row.id.as_str())
    } else {
        false
    };
    proof {
        let t = all.take(i as int);
        if i > 0 {
            assert(t.last() == all[i - 1]);
            assert(all[i - 1] == rows@[i - 1]@);
            bytes::lemma_name_order(row.id@, row.id@, row.id@);
        }
    }
    if replace {
        proof {
            let t = all.take(i as int);
            assert(t.drop_last().push(row@) + all.skip(i as int) =~= all.update(i - 1, row@));
        }
        let ghost before = rows@;
        rows.set(i - 1, row);
        assert(part::rows_view(rows@) =~= part::rows_view(before).update(i - 1, row@));
    } else {
        proof {
            let t = all.take(i as int);
            assert(t.push(row@) + all.skip(i as int) =~= all.insert(i as int, row@));
        }
        let ghost before = rows@;
        rows.insert(i, row);
        assert(part::rows_view(rows@) =~= part::rows_view(before).insert(i as int, row@));
    }
}

/// The row of an id.
pub fn find_row(rows: &Vec<Row>, id: &str) -> (r: Option<usize>)
    requires
        part::ids_ascending(part::rows_view(rows@)),
    ensures
        part::row_of(part::rows_view(rows@), id@) == (match r {
            Some(i) => Some(i as nat),
            None => None,
        }),
        r matches Some(i) ==> i < rows@.len(),
{
    let ghost all = part::rows_view(rows@);
    let mut lo: usize = 0;
    let mut hi: usize = rows.len();
    while lo < hi
        invariant
            all == part::rows_view(rows@),
            part::ids_ascending(all),
            lo <= hi <= rows@.len(),
            forall|i: int| 0 <= i < lo ==> bytes::name_lt(#[trigger] all[i].id, id@),
            forall|i: int| hi <= i < all.len() ==> bytes::name_lt(id@, #[trigger] all[i].id),
        decreases hi - lo,
    {
        let mid: usize = lo + (hi - lo) / 2;
        assert(all[mid as int] == rows@[mid as int]@);
        if bytes::str_eq(rows[mid].id.as_str(), id) {
            proof {
                part::lemma_row_of(all, id@, mid as int);
            }
            return Some(mid);
        }
        if bytes::str_lt(rows[mid].id.as_str(), id) {
            proof {
                assert forall|i: int| 0 <= i < mid + 1 implies bytes::name_lt(
                    #[trigger] all[i].id,
                    id@,
                ) by {
                    if i < mid {
                        bytes::lemma_name_order(all[i].id, all[mid as int].id, id@);
                    }
                }
            }
            lo = mid + 1;
        } else {
            proof {
                bytes::lemma_name_order(all[mid as int].id, id@, id@);
                assert forall|i: int| mid <= i < all.len() implies bytes::name_lt(
                    id@,
                    #[trigger] all[i].id,
                ) by {
                    if i > mid {
                        bytes::lemma_name_order(id@, all[mid as int].id, all[i].id);
                    }
                }
            }
            hi = mid;
        }
    }
    proof {
        bytes::lemma_name_order(id@, id@, id@);
    }
    None
}

} // verus!
