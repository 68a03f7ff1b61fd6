//! Laws of verifying by units: what running one changes, in what order windows run, and how progress
//! is counted.

use crate::store::names::SEG_HDR_LEN;
use crate::store::source;
use crate::store::source::{UnitView, VerifyError};
use crate::store::source_run;
use crate::store::source_run::SourceVerifier;
use crate::store::sum_laws;
use crate::store::verify;
use crate::store::verify::CONTENT_ROWS;
use vstd::prelude::*;

verus! {

/// Whether a unit's window does not begin where its bytes do.
pub open spec fn begins_later(u: UnitView) -> bool {
    match u {
        UnitView::MemberChecksum { start, .. } => start != 0,
        UnitView::PartDigest { start, .. } => start != 0,
        UnitView::FoldFrames { start, .. } => start > SEG_HDR_LEN,
        _ => false,
    }
}

/// What running a unit does: one that holds is done from then on, and no other unit is touched; one
/// that does not hold, or whose window would run before the one that it goes on from, leaves the
/// verification as it was; and one that is done is not run again.
pub proof fn lemma_run(
    before: SourceVerifier,
    after: SourceVerifier,
    index: int,
    r: Result<(), VerifyError>,
)
    requires
        source_run::run_outcome(before, after, index, r),
        0 <= index,
        before.done@.len() == before.units@.len(),
    ensures
        r is Err ==> after == before,
        r is Ok ==> {
            let units = source::units_view(before.units@);
            &&& index < units.len()
            &&& source::units_view(after.units@) == units
            &&& after.done@.len() == before.done@.len()
            &&& after.done@[index]
            &&& forall|i: int|
                0 <= i < units.len() && i != index ==> #[trigger] after.done@[i] == before.done@[i]
            &&& before.done@[index] || source::unit_fault(before.env(), units[index]) is None
            &&& before.done@[index] ==> after == before
            &&& begins_later(units[index]) && !before.done@[index] ==> index > 0
                && before.done@[index - 1]
        },
        index < before.units@.len() && source::unit_fault(
            before.env(),
            source::units_view(before.units@)[index],
        ) is Some && !before.done@[index] ==> r is Err,
        index >= before.units@.len() ==> r == Err::<(), VerifyError>(VerifyError::NoUnit),
{
}

/// Progress counts the units that ran.
pub proof fn lemma_progress(done: Seq<bool>, n: nat)
    requires
        n <= done.len(),
    ensures
        source_run::done_count(done, n) == sum_laws::count(n, |i: int| done[i]),
        source_run::done_count(done, n) == n <==> forall|i: int| 0 <= i < n ==> #[trigger] done[i],
    decreases n,
{
    let meets = |i: int| done[i];
    if n > 0 {
        lemma_progress(done, (n - 1) as nat);
        sum_laws::lemma_count((n - 1) as nat, meets);
        sum_laws::lemma_count((n - 1) as nat, meets);
        if source_run::done_count(done, n) == n {
            assert forall|i: int| 0 <= i < n implies #[trigger] done[i] by {
                if i < n - 1 {
                    assert(done[i]);
                }
            }
        }
    } else {
        sum_laws::lemma_count(0, meets);
    }
}

/// The windows of a part's live rows begin at the first and touch, none is empty or has more rows
/// than a window may, and together they are all the rows.
pub proof fn lemma_row_windows(at: nat, rows: nat)
    requires
        at <= rows,
    ensures
        ({
            let w = verify::row_tiles(at, rows);
            &&& at == rows <==> w.len() == 0
            &&& w.len() > 0 ==> w[0].0 == at && w.last().1 == rows
            &&& forall|i: int|
                0 <= i < w.len() ==> (#[trigger] w[i]).0 < w[i].1 <= w[i].0 + CONTENT_ROWS
            &&& forall|i: int| 0 < i < w.len() ==> (#[trigger] w[i]).0 == w[i - 1].1
        }),
    decreases rows - at,
{
    if at < rows {
        let stop: nat = if rows - at <= CONTENT_ROWS {
            rows
        } else {
            (at + CONTENT_ROWS) as nat
        };
        lemma_row_windows(stop, rows);
        let rest = verify::row_tiles(stop, rows);
        let w = verify::row_tiles(at, rows);
        assert(w == seq![(at, stop)] + rest);
        assert forall|i: int| 0 <= i < w.len() implies (#[trigger] w[i]).0 < w[i].1 <= w[i].0
            + CONTENT_ROWS by {
            if i > 0 {
                assert(w[i] == rest[i - 1]);
            }
        }
        assert forall|i: int| 0 < i < w.len() implies (#[trigger] w[i]).0 == w[i - 1].1 by {
            assert(w[i] == rest[i - 1]);
            if i > 1 {
                assert(w[i - 1] == rest[i - 2]);
            }
        }
        if rest.len() > 0 {
            assert(w.last() == rest.last());
        }
    }
}

/// Units of different kinds are called by different words.
pub proof fn lemma_kinds_apart(a: UnitView, b: UnitView)
    requires
        source::unit_kind(a) == source::unit_kind(b),
    ensures
        a is MemberChecksum <==> b is MemberChecksum,
        a is ManifestChain <==> b is ManifestChain,
        a is PartDigest <==> b is PartDigest,
        a is PartSection <==> b is PartSection,
        a is PartGrammar <==> b is PartGrammar,
        a is PartPieces <==> b is PartPieces,
        a is FoldFrames <==> b is FoldFrames,
        a is Content <==> b is Content,
{
    reveal_strlit("memberChecksum");
    reveal_strlit("manifestChain");
    reveal_strlit("partDigest");
    reveal_strlit("partSection");
    reveal_strlit("partGrammar");
    reveal_strlit("partPieces");
    reveal_strlit("foldFrames");
    reveal_strlit("content");
    let (x, y) = (source::unit_kind(a), source::unit_kind(b));
    assert(x.len() == y.len());
    assert(x[0] == y[0] && x[4] == y[4] && x[5] == y[5]);
}

} // verus!
