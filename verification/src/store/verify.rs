//! Verification over a positioned source, in declared units.
//!
//! A reader that fetches a store by ranges cannot pay for one pass over every byte. The checks of a
//! whole verification are cut into an ordered list of units. Each declares the bytes it reads
//! before it runs. Once every unit has run, what they found is a verification of the whole; before
//! that it is scoped to the units that ran, and no whole result is given.

use vstd::prelude::*;

verus! {

/// Bytes a windowed unit covers at most.
pub const WINDOW_BYTES: u64 = 8_388_608;

/// Rows one content unit covers at most.
pub const CONTENT_ROWS: usize = 256;

/// Which authority a unit's claim is made against.
#[derive(Clone, Copy, Debug, PartialEq, Eq, Structural)]
pub enum Authority {
    /// The revision that the current container state selects.
    Current,
    /// A retained revision.
    Retained(u64),
}

// ---------------------------------------------------------------------------------------------
// Windows.
// ---------------------------------------------------------------------------------------------
/// The end of a window that begins at `at`.
pub open spec fn window_stop(at: u64, to: u64) -> u64 {
    if to - at <= WINDOW_BYTES {
        to
    } else {
        (at + WINDOW_BYTES) as u64
    }
}

/// The windows of a range that is not empty.
pub open spec fn tiles(at: u64, to: u64) -> Seq<(u64, u64)>
    decreases to - at,
{
    if at >= to {
        Seq::empty()
    } else {
        seq![(at, window_stop(at, to))] + tiles(window_stop(at, to), to)
    }
}

/// The windows of a range. An empty range has one empty window, so that a member without bytes has
/// its checksum checked.
pub open spec fn windows_of(from: u64, to: u64) -> Seq<(u64, u64)> {
    if to <= from {
        seq![(from, from)]
    } else {
        tiles(from, to)
    }
}

/// Cut a range into windows.
pub fn windows(from: u64, to: u64) -> (r: Vec<(u64, u64)>)
    ensures
        r@ == windows_of(from, to),
{
    let mut out: Vec<(u64, u64)> = Vec::new();
    if to <= from {
        out.push((from, from));
        assert(out@ =~= windows_of(from, to));
        return out;
    }
    let mut at: u64 = from;
    assert(out@ + tiles(at, to) =~= tiles(from, to));
    while at < to
        invariant
            from <= at <= to,
            from < to,
            out@ + tiles(at, to) == tiles(from, to),
        decreases to - at,
    {
        let stop: u64 = if to - at <= WINDOW_BYTES {
            to
        } else {
            at + WINDOW_BYTES
        };
        let ghost before = out@;
        out.push((at, stop));
        proof {
            assert(before + tiles(at, to) =~= out@ + tiles(stop, to));
        }
        at = stop;
    }
    assert(out@ + tiles(at, to) =~= out@);
    out
}

/// Windows cover a range without a gap or an overlap.
pub proof fn lemma_tiles_cover(at: u64, to: u64, x: u64)
    ensures
        at <= x < to <==> exists|i: int|
            0 <= i < tiles(at, to).len() && (#[trigger] tiles(at, to)[i]).0 <= x < tiles(at, to)[i].1,
        forall|i: int|
            0 <= i < tiles(at, to).len() ==> (#[trigger] tiles(at, to)[i]).0 < tiles(at, to)[i].1
                <= tiles(at, to)[i].0 + WINDOW_BYTES,
        forall|i: int, j: int|
            0 <= i < j < tiles(at, to).len() ==> (#[trigger] tiles(at, to)[i]).1 <= (
            #[trigger] tiles(at, to)[j]).0,
        at < to ==> tiles(at, to).len() > 0 && tiles(at, to)[0].0 == at && tiles(at, to).last().1
            == to,
    decreases to - at,
{
    if at < to {
        let stop = window_stop(at, to);
        lemma_tiles_cover(stop, to, x);
        let rest = tiles(stop, to);
        let all = tiles(at, to);
        assert(all[0] == (at, stop));
        assert forall|i: int| 0 <= i < rest.len() implies all[i + 1] == #[trigger] rest[i] by {}
        assert forall|i: int| 1 <= i < all.len() implies #[trigger] all[i] == rest[i - 1] by {}
        if at <= x < to {
            if x < stop {
                assert(all[0].0 <= x < all[0].1);
            } else {
                let i = choose|i: int|
                    0 <= i < rest.len() && (#[trigger] rest[i]).0 <= x < rest[i].1;
                assert(all[i + 1].0 <= x < all[i + 1].1);
            }
        }
        if exists|i: int| 0 <= i < all.len() && (#[trigger] all[i]).0 <= x < all[i].1 {
            let i = choose|i: int| 0 <= i < all.len() && (#[trigger] all[i]).0 <= x < all[i].1;
            if i > 0 {
                assert(rest[i - 1].0 <= x < rest[i - 1].1);
            }
        }
        if rest.len() > 0 {
            assert(all.last() == rest.last());
        }
        assert forall|i: int, j: int| 0 <= i < j < all.len() implies (#[trigger] all[i]).1 <= (
        #[trigger] all[j]).0 by {
            if i > 0 {
                assert(rest[i - 1].1 <= rest[j - 1].0);
            } else {
                assert(all[j] == rest[j - 1]);
                if j - 1 > 0 {
                    assert(rest[0].1 <= rest[j - 1].0);
                    assert(rest[0].0 < rest[0].1);
                }
            }
        }
    }
}

/// The row windows from `at` on.
pub open spec fn row_tiles(at: nat, rows: nat) -> Seq<(nat, nat)>
    decreases rows - at,
{
    if at >= rows {
        Seq::empty()
    } else {
        let stop = if rows - at <= CONTENT_ROWS {
            rows
        } else {
            (at + CONTENT_ROWS) as nat
        };
        seq![(at, stop)] + row_tiles(stop, rows)
    }
}

/// Views of row windows.
pub open spec fn row_windows_view(v: Seq<(usize, usize)>) -> Seq<(nat, nat)> {
    Seq::new(v.len(), |i: int| (v[i].0 as nat, v[i].1 as nat))
}

/// Cut rows into windows.
pub fn row_windows(rows: usize) -> (r: Vec<(usize, usize)>)
    ensures
        row_windows_view(r@) == row_tiles(0, rows as nat),
{
    let mut out: Vec<(usize, usize)> = Vec::new();
    let mut at: usize = 0;
    assert(row_windows_view(out@) + row_tiles(0, rows as nat) =~= row_tiles(0, rows as nat));
    while at < rows
        invariant
            at <= rows,
            row_windows_view(out@) + row_tiles(at as nat, rows as nat) == row_tiles(
                0,
                rows as nat,
            ),
        decreases rows - at,
    {
        let stop: usize = if rows - at <= CONTENT_ROWS {
            rows
        } else {
            at + CONTENT_ROWS
        };
        let ghost before = out@;
        out.push((at, stop));
        proof {
            assert(row_windows_view(out@) =~= row_windows_view(before).push(
                (at as nat, stop as nat),
            ));
            assert(row_windows_view(before) + row_tiles(at as nat, rows as nat)
                =~= row_windows_view(out@) + row_tiles(stop as nat, rows as nat));
        }
        at = stop;
    }
    assert(row_windows_view(out@) + row_tiles(at as nat, rows as nat) =~= row_windows_view(out@));
    out
}

// ---------------------------------------------------------------------------------------------
// Ranges.
// ---------------------------------------------------------------------------------------------
/// Whether some range, given as offset and length, holds a position.
pub open spec fn covers(ranges: Seq<(u64, u64)>, x: int) -> bool {
    exists|i: int| 0 <= i < ranges.len() && (#[trigger] ranges[i]).0 <= x < ranges[i].0 + ranges[i].1
}

/// Whether every range ends where offsets do.
pub open spec fn addressable(ranges: Seq<(u64, u64)>) -> bool {
    forall|i: int| 0 <= i < ranges.len() ==> (#[trigger] ranges[i]).0 + ranges[i].1 <= u64::MAX
}

/// Ranges in order, none empty, with a gap between any two. There is one way to write a set of
/// positions so.
pub open spec fn apart(ranges: Seq<(u64, u64)>) -> bool {
    &&& forall|i: int| 0 <= i < ranges.len() ==> (#[trigger] ranges[i]).1 > 0
    &&& forall|i: int, j: int|
        0 <= i < j < ranges.len() ==> (#[trigger] ranges[i]).0 + ranges[i].1 < (
        #[trigger] ranges[j]).0
}

/// Whether a new range, or one of those from `first` to `i`, holds a position.
spec fn merged_at(ranges: Seq<(u64, u64)>, first: int, i: int, off: u64, len: u64, x: int) -> bool {
    off <= x < off + len || exists|k: int|
        first <= k < i && (#[trigger] ranges[k]).0 <= x < ranges[k].0 + ranges[k].1
}

proof fn lemma_absorbed(
    all: Seq<(u64, u64)>,
    r: Seq<(u64, u64)>,
    first: int,
    second: int,
    lo: u64,
    hi: u64,
    off: u64,
    len: u64,
)
    requires
        apart(all),
        addressable(all),
        0 <= first <= second <= all.len(),
        lo < hi,
        lo <= off,
        off + len <= hi,
        r == all.take(first).push((lo, (hi - lo) as u64)) + all.subrange(second, all.len() as int),
        forall|k: int| 0 <= k < first ==> (#[trigger] all[k]).0 + all[k].1 < lo,
        forall|k: int|
            first <= k < second ==> lo <= (#[trigger] all[k]).0 && all[k].0 + all[k].1 <= hi,
        forall|x: int|
            lo <= x < hi ==> #[trigger] merged_at(all, first, second, off, len, x),
        second < all.len() ==> all[second].0 > hi,
    ensures
        apart(r),
        addressable(r),
        forall|x: int| #[trigger] covers(r, x) <==> covers(all, x) || off <= x < off + len,
{
    let shift = second - first - 1;
    assert(r.len() == first + 1 + (all.len() - second));
    assert forall|k: int| 0 <= k < first implies #[trigger] r[k] == all[k] by {
        assert(r[k] == all.take(first)[k]);
    }
    assert(r[first] == (lo, (hi - lo) as u64));
    assert forall|k: int| first < k < r.len() implies #[trigger] r[k] == all[k + shift] by {}
    assert forall|k: int| second <= k < all.len() implies hi < (#[trigger] all[k]).0 by {
        if second < all.len() {
            assert(all[second].0 > hi);
            if k > second {
                assert(all[second].0 + all[second].1 < all[k].0);
            }
        }
    }
    assert forall|k: int| 0 <= k < r.len() implies (#[trigger] r[k]).0 + r[k].1
        <= u64::MAX by {
        if k < first {
            assert(r[k] == all[k]);
        } else if k > first {
            assert(r[k] == all[k + shift]);
        }
    }
    assert forall|k: int| 0 <= k < r.len() implies (#[trigger] r[k]).1 > 0 by {
        if k < first {
            assert(r[k] == all[k]);
        } else if k > first {
            assert(r[k] == all[k + shift]);
        }
    }
    assert forall|a: int, b: int| 0 <= a < b < r.len() implies (#[trigger] r[a]).0 + r[a].1 < (
    #[trigger] r[b]).0 by {
        if b < first {
            assert(r[a] == all[a] && r[b] == all[b]);
        } else if b == first {
            assert(r[a] == all[a]);
        } else if a > first {
            assert(r[a] == all[a + shift] && r[b] == all[b + shift]);
        } else if a == first {
            assert(r[b] == all[b + shift]);
        } else {
            assert(r[a] == all[a] && r[b] == all[b + shift]);
        }
    }
    assert forall|x: int| #[trigger] covers(r, x) <==> covers(all, x) || off <= x < off
        + len by {
        if covers(r, x) {
            let k = choose|k: int|
                0 <= k < r.len() && (#[trigger] r[k]).0 <= x < r[k].0 + r[k].1;
            if k < first {
                assert(all[k].0 <= x < all[k].0 + all[k].1);
            } else if k > first {
                assert(all[k + shift].0 <= x < all[k + shift].0 + all[k + shift].1);
            } else if !(off <= x < off + len) {
                assert(merged_at(all, first, second, off, len, x));
                let j = choose|j: int|
                    first <= j < second && (#[trigger] all[j]).0 <= x < all[j].0 + all[j].1;
                assert(all[j].0 <= x < all[j].0 + all[j].1);
            }
        }
        if covers(all, x) {
            let k = choose|k: int|
                0 <= k < all.len() && (#[trigger] all[k]).0 <= x < all[k].0 + all[k].1;
            if k < first {
                assert(r[k].0 <= x < r[k].0 + r[k].1);
            } else if k < second {
                assert(r[first].0 <= x < r[first].0 + r[first].1);
            } else {
                assert(r[k - shift].0 <= x < r[k - shift].0 + r[k - shift].1);
            }
        }
        if off <= x < off + len {
            assert(r[first].0 <= x < r[first].0 + r[first].1);
        }
    }
}

fn absorb(ranges: &Vec<(u64, u64)>, off: u64, len: u64) -> (r: Vec<(u64, u64)>)
    requires
        apart(ranges@),
        addressable(ranges@),
        len > 0,
        off + len <= u64::MAX,
    ensures
        apart(r@),
        addressable(r@),
        forall|x: int| #[trigger]
            covers(r@, x) <==> covers(ranges@, x) || off <= x < off + len,
{
    let mut out: Vec<(u64, u64)> = Vec::new();
    let mut lo: u64 = off;
    let mut hi: u64 = off + len;
    let mut i: usize = 0;
    while i < ranges.len() && ranges[i].0 + ranges[i].1 < off
        invariant
            apart(ranges@),
            addressable(ranges@),
            i <= ranges@.len(),
            out@ == ranges@.take(i as int),
            forall|k: int| 0 <= k < i ==> (#[trigger] ranges@[k]).0 + ranges@[k].1 < off,
        decreases ranges.len() - i,
    {
        out.push(ranges[i]);
        i = i + 1;
        assert(out@ =~= ranges@.take(i as int));
    }
    let ghost first = i as int;
    while i < ranges.len() && ranges[i].0 <= hi
        invariant
            apart(ranges@),
            addressable(ranges@),
            0 <= first <= i <= ranges@.len(),
            out@ == ranges@.take(first),
            lo <= off,
            off + len <= hi,
            lo < hi,
            forall|k: int| 0 <= k < first ==> (#[trigger] ranges@[k]).0 + ranges@[k].1 < lo,
            forall|k: int| first <= k < i ==> lo <= (#[trigger] ranges@[k]).0 && ranges@[k].0
                + ranges@[k].1 <= hi,
            forall|x: int|
                lo <= x < hi ==> #[trigger] merged_at(ranges@, first, i as int, off, len, x),
            first < ranges@.len() ==> ranges@[first].0 + ranges@[first].1 >= off,
            i > first ==> lo <= ranges@[first].0,
            i == first ==> lo == off && hi == off + len,
        decreases ranges.len() - i,
    {
        let (o, l) = ranges[i];
        let end: u64 = o + l;
        let ghost lo0 = lo;
        let ghost hi0 = hi;
        if o < lo {
            lo = o;
        }
        if end > hi {
            hi = end;
        }
        proof {
            if i > first {
                assert(ranges@[first].0 + ranges@[first].1 < ranges@[i as int].0);
                assert(o >= lo0);
            }
            assert forall|k: int| 0 <= k < first implies (#[trigger] ranges@[k]).0 + ranges@[k].1
                < lo by {
                assert(ranges@[k].0 + ranges@[k].1 < ranges@[i as int].0);
            }
            assert forall|x: int| lo <= x < hi implies #[trigger] merged_at(
                ranges@,
                first,
                i + 1,
                off,
                len,
                x,
            ) by {
                if lo0 <= x < hi0 {
                    assert(merged_at(ranges@, first, i as int, off, len, x));
                    if !(off <= x < off + len) {
                        let k = choose|k: int|
                            first <= k < i && (#[trigger] ranges@[k]).0 <= x < ranges@[k].0
                                + ranges@[k].1;
                        assert(ranges@[k].0 <= x < ranges@[k].0 + ranges@[k].1);
                    }
                } else {
                    assert(ranges@[i as int].0 <= x < ranges@[i as int].0 + ranges@[i as int].1);
                }
            }
        }
        i = i + 1;
    }
    let ghost second = i as int;
    out.push((lo, hi - lo));
    let ghost head = out@;
    while i < ranges.len()
        invariant
            apart(ranges@),
            addressable(ranges@),
            0 <= first <= second <= i <= ranges@.len(),
            head.len() == first + 1,
            out@ == head + ranges@.subrange(second, i as int),
        decreases ranges.len() - i,
    {
        out.push(ranges[i]);
        i = i + 1;
        assert(out@ =~= head + ranges@.subrange(second, i as int));
    }
    proof {
        assert(head =~= ranges@.take(first).push((lo, (hi - lo) as u64)));
        assert(out@ =~= head + ranges@.subrange(second, ranges@.len() as int));
        lemma_absorbed(ranges@, out@, first, second, lo, hi, off, len);
    }
    out
}

/// Sort ranges, and merge those that touch or overlap. Empty ranges go.
pub fn coalesce(ranges: Vec<(u64, u64)>) -> (r: Vec<(u64, u64)>)
    requires
        addressable(ranges@),
    ensures
        apart(r@),
        addressable(r@),
        forall|x: int| #[trigger] covers(r@, x) <==> covers(ranges@, x),
{
    let mut out: Vec<(u64, u64)> = Vec::new();
    let mut i: usize = 0;
    while i < ranges.len()
        invariant
            addressable(ranges@),
            i <= ranges@.len(),
            apart(out@),
            addressable(out@),
            forall|x: int| #[trigger] covers(out@, x) <==> covers(ranges@.take(i as int), x),
        decreases ranges.len() - i,
    {
        let (off, len) = ranges[i];
        let ghost before = out@;
        let ghost seen = ranges@.take(i as int);
        let ghost next = ranges@.take(i + 1);
        assert(ranges@[i as int].0 + ranges@[i as int].1 <= u64::MAX);
        if len > 0 {
            out = absorb(&out, off, len);
        }
        proof {
            assert forall|x: int| #[trigger] covers(out@, x) <==> covers(next, x) by {
                assert(covers(before, x) <==> covers(seen, x));
                if covers(seen, x) {
                    let k = choose|k: int|
                        0 <= k < seen.len() && (#[trigger] seen[k]).0 <= x < seen[k].0 + seen[k].1;
                    assert(next[k].0 <= x < next[k].0 + next[k].1);
                }
                if off <= x < off + len {
                    assert(next[i as int].0 <= x < next[i as int].0 + next[i as int].1);
                }
                if covers(next, x) {
                    let k = choose|k: int|
                        0 <= k < next.len() && (#[trigger] next[k]).0 <= x < next[k].0 + next[k].1;
                    if k < i {
                        assert(seen[k].0 <= x < seen[k].0 + seen[k].1);
                    }
                }
            }
        }
        i = i + 1;
    }
    assert(ranges@.take(ranges@.len() as int) =~= ranges@);
    out
}

} // verus!
