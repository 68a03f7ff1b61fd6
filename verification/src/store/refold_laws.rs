//! What a refold keeps: every visible record, every readable value, and one history.

use crate::fold;
use crate::fold::{FoldView, Loc};
use crate::hash;
use crate::part;
use crate::part::PartView;
use crate::store::engine;
use crate::store::engine::StoreView;
use crate::store::engine_read;
use crate::store::manifest::{ManifestView, PartRefView};
use crate::store::publish;
use crate::store::publish::{EncodedPart, PlanView, PublishError};
use crate::store::publish_laws;
use crate::store::read;
use crate::store::read::Verdict;
use crate::store::refold;
use crate::store::refold::{RefoldError, RefoldView};
use crate::store::writer;
use crate::store::writer::WriterView;
use crate::types::OpView;
use vstd::prelude::*;

verus! {

/// Whether a plan holds the visible rows of one of the first `n` parts, with a dictionary for them.
pub open spec fn rebuilds(parts: Seq<PartView>, w: WriterView, n: nat, p: PlanView) -> bool {
    exists|q: int|
        0 <= q < n && p.rows == #[trigger] refold::kept(parts, q) && publish::dict_rows(
            Seq::empty(),
            w,
            p.rows,
            p.rows.len(),
        ) == Ok::<Seq<(Seq<u8>, Loc)>, PublishError>(p.pieces)
}

proof fn lemma_rebuilt_among(
    parts: Seq<PartView>,
    refs: Seq<PartRefView>,
    generation: u32,
    w: WriterView,
    n: nat,
)
    requires
        n <= parts.len(),
        refold::rebuilt_among(parts, refs, generation, w, n) is Ok,
    ensures
        ({
            let plans = refold::rebuilt_among(parts, refs, generation, w, n)->Ok_0.0;
            &&& forall|i: int| 0 <= i < plans.len() ==> rebuilds(parts, w, n, #[trigger] plans[i])
            &&& forall|q: int|
                0 <= q < n && (#[trigger] refold::kept(parts, q)).len() > 0 ==> exists|i: int|
                    0 <= i < plans.len() && (#[trigger] plans[i]).rows == refold::kept(parts, q)
        }),
    decreases n,
{
    if n > 0 {
        lemma_rebuilt_among(parts, refs, generation, w, (n - 1) as nat);
        let before = refold::rebuilt_among(parts, refs, generation, w, (n - 1) as nat)->Ok_0.0;
        let plans = refold::rebuilt_among(parts, refs, generation, w, n)->Ok_0.0;
        let rows = refold::kept(parts, n - 1);
        assert forall|i: int| 0 <= i < plans.len() implies rebuilds(
            parts,
            w,
            n,
            #[trigger] plans[i],
        ) by {
            if i < before.len() {
                assert(plans[i] == before[i]);
                assert(rebuilds(parts, w, (n - 1) as nat, before[i]));
                let q = choose|q: int|
                    0 <= q < n - 1 && before[i].rows == #[trigger] refold::kept(parts, q)
                        && publish::dict_rows(
                        Seq::empty(),
                        w,
                        before[i].rows,
                        before[i].rows.len(),
                    ) == Ok::<Seq<(Seq<u8>, Loc)>, PublishError>(before[i].pieces);
                assert(plans[i].rows == refold::kept(parts, q));
            } else {
                assert(plans[i].rows == refold::kept(parts, n - 1));
            }
        }
        assert forall|q: int| 0 <= q < n && (#[trigger] refold::kept(parts, q)).len()
            > 0 implies exists|i: int|
            0 <= i < plans.len() && (#[trigger] plans[i]).rows == refold::kept(parts, q) by {
            if q < n - 1 {
                let i = choose|i: int|
                    0 <= i < before.len() && (#[trigger] before[i]).rows == refold::kept(parts, q);
                assert(plans[i] == before[i]);
            } else {
                assert(plans[plans.len() - 1].rows == rows);
            }
        }
    }
}

proof fn lemma_rebuilt(
    parts: Seq<PartView>,
    refs: Seq<PartRefView>,
    generation: u32,
    w: WriterView,
)
    requires
        parts.len() > 0,
        refold::rebuilt(parts, refs, generation, w) is Ok,
    ensures
        ({
            let plans = refold::rebuilt(parts, refs, generation, w)->Ok_0;
            &&& forall|i: int|
                0 <= i < plans.len() ==> (#[trigger] plans[i]).rows.len() == 0 || rebuilds(
                    parts,
                    w,
                    parts.len(),
                    plans[i],
                )
            &&& forall|q: int|
                0 <= q < parts.len() && (#[trigger] refold::kept(parts, q)).len() > 0
                    ==> exists|i: int|
                    0 <= i < plans.len() && (#[trigger] plans[i]).rows == refold::kept(parts, q)
        }),
{
    lemma_rebuilt_among(parts, refs, generation, w, parts.len());
    let among = refold::rebuilt_among(parts, refs, generation, w, parts.len())->Ok_0.0;
    let plans = refold::rebuilt(parts, refs, generation, w)->Ok_0;
    if among.len() == 0 {
        assert(plans.len() == 1 && plans[0].rows.len() == 0);
        assert forall|q: int| 0 <= q < parts.len() implies (#[trigger] refold::kept(
            parts,
            q,
        )).len() == 0 by {
            if refold::kept(parts, q).len() > 0 {
                let i = choose|i: int|
                    0 <= i < among.len() && (#[trigger] among[i]).rows == refold::kept(parts, q);
                assert(0 <= i < among.len());
            }
        }
    } else {
        assert(plans == among);
    }
}

/// Where an id is in rebuilt parts: in a part with the visible rows of the one that decides it, or
/// nowhere.
pub proof fn lemma_refold_located(
    parts: Seq<PartView>,
    refs: Seq<PartRefView>,
    generation: u32,
    w: WriterView,
    encoded: Seq<EncodedPart>,
    id: Seq<char>,
) -> (found: Option<(int, int, int)>)
    requires
        part::parts_sound(parts),
        parts.len() > 0,
        refold::rebuilt(parts, refs, generation, w) is Ok,
    ensures
        ({
            let plans = refold::rebuilt(parts, refs, generation, w)->Ok_0;
            let out = refold::rebuilt_parts(plans, encoded);
            match found {
                None => read::newest(out, id) is None && read::located(parts, id) is None,
                Some((i, r, q)) => {
                    &&& 0 <= i < plans.len()
                    &&& 0 <= r < plans[i].rows.len()
                    &&& 0 <= q < parts.len()
                    &&& read::newest(out, id) == Some((i as nat, r as nat))
                    &&& read::located(parts, id) is Some
                    &&& (read::located(parts, id)->0).0 == q
                    &&& plans[i].rows[r] == parts[q].rows[(read::located(parts, id)->0).1 as int]
                    &&& plans[i].rows[r].record is Some
                    &&& rebuilds(parts, w, parts.len(), plans[i])
                },
            }
        }),
{
    let plans = refold::rebuilt(parts, refs, generation, w)->Ok_0;
    let out = refold::rebuilt_parts(plans, encoded);
    lemma_rebuilt(parts, refs, generation, w);
    read::lemma_newest(out, id);
    read::lemma_newest(parts, id);
    match read::newest(out, id) {
        Some((i, r)) => {
            let rows = plans[i as int].rows;
            assert(out[i as int].rows == rows);
            assert(rebuilds(parts, w, parts.len(), plans[i as int]));
            let q = choose|q: int|
                0 <= q < parts.len() && rows == #[trigger] refold::kept(parts, q)
                    && publish::dict_rows(Seq::empty(), w, rows, rows.len()) == Ok::<
                    Seq<(Seq<u8>, Loc)>,
                    PublishError,
                >(plans[i as int].pieces);
            assert(part::part_sound(parts[q]));
            refold::lemma_kept_sound(parts, q, parts[q].rows.len());
            assert(refold::is_kept(parts, q, parts[q].rows.len(), rows[r as int]));
            let k = choose|k: int|
                0 <= k < parts[q].rows.len() && parts[q].rows[k] == rows[r as int]
                    && #[trigger] read::verdict(parts, q, k) == Verdict::Live;
            read::lemma_live_is_located(parts, q, k);
            Some((i as int, r as int, q))
        },
        None => {
            if let Some((q, k)) = read::located(parts, id) {
                read::lemma_live_is_located(parts, q as int, k as int);
                assert(part::part_sound(parts[q as int]));
                refold::lemma_kept_sound(parts, q as int, parts[q as int].rows.len());
                let rows = refold::kept(parts, q as int);
                assert(rows.contains(parts[q as int].rows[k as int]));
                let j = choose|j: int|
                    0 <= j < rows.len() && rows[j] == parts[q as int].rows[k as int];
                assert(rows.len() > 0);
                let i = choose|i: int|
                    0 <= i < plans.len() && (#[trigger] plans[i]).rows == rows;
                assert(out[i].rows[j].id == id);
                assert(part::row_of(out[i].rows, id) is Some);
                assert(false);
            }
            None
        },
    }
}

/// The dictionary of a rebuilt part gives every piece of its rows the location that the copy gave
/// it.
pub proof fn lemma_rebuilds(parts: Seq<PartView>, w: WriterView, p: PlanView, r: int, c: int)
    requires
        rebuilds(parts, w, parts.len(), p),
        0 <= r < p.rows.len(),
        p.rows[r].record is Some,
        0 <= c < p.rows[r].record->0.contents.len(),
    ensures
        publish_laws::dict_located(Seq::empty(), w, p.pieces),
        publish_laws::dict_holds(
            p.pieces,
            p.rows[r].record->0.contents[c].ops,
            p.rows[r].record->0.contents[c].ops.len(),
        ),
{
    publish_laws::lemma_dict_rows(Seq::empty(), w, p.rows, p.rows.len(), r, c);
}

/// A refold changes no visible record.
pub proof fn lemma_refold_visible(
    s: StoreView,
    p: RefoldView,
    encoded: Seq<EncodedPart>,
    m: ManifestView,
    id: Seq<char>,
)
    requires
        engine::store_ok(s),
        s.mem.len() == 0,
        s.parts.len() > 0,
        refold::refold_plan(s) == Ok::<RefoldView, RefoldError>(p),
    ensures
        engine_read::visible(refold::refolded_store(s, p, encoded, m), id) == engine_read::visible(
            s,
            id,
        ),
{
    let pieces = refold::wanted(s.parts, s.parts.len())->0;
    let order = refold::fold_order(pieces, pieces.len());
    let w = refold::copied(s.writer.fold, order, order.len(), s.writer.target)->Ok_0;
    let _ = lemma_refold_located(
        s.parts,
        s.manifest.parts,
        p.generation,
        w,
        encoded,
        id,
    );
}

/// Every row of a rebuilt part is a record: no tombstone is left.
pub proof fn lemma_refold_records(
    s: StoreView,
    p: RefoldView,
    encoded: Seq<EncodedPart>,
    m: ManifestView,
    id: Seq<char>,
)
    requires
        engine::store_ok(s),
        s.mem.len() == 0,
        s.parts.len() > 0,
        refold::refold_plan(s) == Ok::<RefoldView, RefoldError>(p),
    ensures
        ({
            let t = refold::refolded_store(s, p, encoded, m);
            read::newest(t.parts, id) is Some ==> engine_read::visible(t, id) is Some
        }),
{
    let pieces = refold::wanted(s.parts, s.parts.len())->0;
    let order = refold::fold_order(pieces, pieces.len());
    let w = refold::copied(s.writer.fold, order, order.len(), s.writer.target)->Ok_0;
    let _ = lemma_refold_located(
        s.parts,
        s.manifest.parts,
        p.generation,
        w,
        encoded,
        id,
    );
}

// ---------------------------------------------------------------------------------------------
// Values.
// ---------------------------------------------------------------------------------------------
/// Whatever one fold reads of a piece, the window of another finds and its fold reads the same.
pub open spec fn mirrors(f: FoldView, w: WriterView) -> bool {
    forall|h: Seq<u8>, a: Loc|
        (#[trigger] part::find_loc(w.window, h)) is Some && (#[trigger] fold::fold_read(
            f,
            a,
            h,
        )) is Ok ==> fold::fold_read(w.fold, part::find_loc(w.window, h)->0, h) == fold::fold_read(
            f,
            a,
            h,
        )
}

proof fn lemma_copied_mirrors(f: FoldView, order: Seq<(Seq<u8>, Loc)>, n: nat, target: u32)
    requires
        publish_laws::agreeing(f),
        n <= order.len(),
        refold::copied(f, order, n, target) is Ok,
    ensures
        mirrors(f, refold::copied(f, order, n, target)->Ok_0),
    decreases n,
{
    let after = refold::copied(f, order, n, target)->Ok_0;
    if n > 0 {
        lemma_copied_mirrors(f, order, (n - 1) as nat, target);
        refold::lemma_copied_ok(f, order, (n - 1) as nat, target);
        let w = refold::copied(f, order, (n - 1) as nat, target)->Ok_0;
        let (h, loc) = order[n - 1];
        let b = fold::fold_read(f, loc, h)->Ok_0;
        assert(b.len() == loc.raw && hash::blake3_digest(b) == h);
        writer::lemma_appended(w, b);
        let at = (writer::appended(w, h, b)->0).1;
        assert forall|x: Seq<u8>, a: Loc|
            (#[trigger] part::find_loc(after.window, x)) is Some && (#[trigger] fold::fold_read(
                f,
                a,
                x,
            )) is Ok implies fold::fold_read(after.fold, part::find_loc(after.window, x)->0, x)
            == fold::fold_read(f, a, x) by {
            writer::lemma_find_pushed(w.window, h, at, x);
            match part::find_loc(w.window, x) {
                Some(l) => {
                    assert(fold::fold_read(w.fold, l, x) == fold::fold_read(f, a, x));
                    assert(fold::fold_read(after.fold, l, x) == fold::fold_read(w.fold, l, x));
                },
                None => {
                    assert(x == h);
                    assert(fold::fold_read(f, loc, h) == fold::fold_read(f, a, h));
                },
            }
        }
    }
}

proof fn lemma_mirrored_program(
    f: FoldView,
    w: WriterView,
    g: FoldView,
    old_dict: Seq<(Seq<u8>, Loc)>,
    new_dict: Seq<(Seq<u8>, Loc)>,
    ops: Seq<OpView>,
)
    requires
        mirrors(f, w),
        g == w.fold,
        publish_laws::dict_located(Seq::empty(), w, new_dict),
        publish_laws::dict_holds(new_dict, ops, ops.len()),
        part::program_bytes(old_dict, f, ops) is Ok,
    ensures
        part::program_bytes(new_dict, g, ops) == part::program_bytes(old_dict, f, ops),
    decreases ops.len(),
{
    if ops.len() > 0 {
        let front = ops.drop_last();
        assert(publish_laws::dict_holds(new_dict, front, front.len())) by {
            assert forall|i: int| 0 <= i < front.len() implies match #[trigger] front[i] {
                OpView::Piece { hash, .. } => part::find_loc(new_dict, hash) is Some,
                OpView::Lit(_) => true,
            } by {
                assert(front[i] == ops[i]);
            }
        }
        lemma_mirrored_program(f, w, g, old_dict, new_dict, front);
        if let OpView::Piece { hash, len } = ops.last() {
            assert(ops[ops.len() - 1] == ops.last());
            let a = part::find_loc(old_dict, hash)->0;
            let b = part::find_loc(new_dict, hash)->0;
            assert(part::find_loc(new_dict, hash) is Some);
            assert(writer::located_in(Seq::empty(), w.fold, hash, 0) is Ok);
            assert(part::find_loc(w.window, hash) == Some(b));
            assert(fold::fold_read(g, b, hash) == fold::fold_read(f, a, hash));
            assert(fold::fold_read(f, a, hash)->Ok_0.len() == a.raw);
            assert(fold::fold_read(g, b, hash)->Ok_0.len() == b.raw);
        }
    }
}

/// A refold changes no value that reads. It takes one copy of each piece, so the fold's copies of
/// one piece must agree.
pub proof fn lemma_refold_value(
    s: StoreView,
    p: RefoldView,
    encoded: Seq<EncodedPart>,
    m: ManifestView,
    id: Seq<char>,
    name: Seq<char>,
)
    requires
        engine::store_ok(s),
        s.mem.len() == 0,
        s.parts.len() > 0,
        refold::refold_plan(s) == Ok::<RefoldView, RefoldError>(p),
        publish_laws::agreeing(s.writer.fold),
        engine_read::value(s, id, name) is Ok,
    ensures
        engine_read::value(refold::refolded_store(s, p, encoded, m), id, name)
            == engine_read::value(s, id, name),
{
    let t = refold::refolded_store(s, p, encoded, m);
    let f = s.writer.fold;
    let pieces = refold::wanted(s.parts, s.parts.len())->0;
    let order = refold::fold_order(pieces, pieces.len());
    let w = refold::copied(f, order, order.len(), s.writer.target)->Ok_0;
    lemma_copied_mirrors(f, order, order.len(), s.writer.target);
    let found = lemma_refold_located(
        s.parts,
        s.manifest.parts,
        p.generation,
        w,
        encoded,
        id,
    );
    if let Some((i, r, q)) = found {
        let rows = p.parts[i].rows;
        let contents = rows[r].record->0.contents;
        if part::content_named(contents, name) is Some {
            let c = part::lemma_content_named(contents, name);
            publish_laws::lemma_dict_rows(Seq::empty(), w, rows, rows.len(), r, c);
            lemma_mirrored_program(
                f,
                w,
                t.writer.fold,
                s.parts[q].pieces,
                p.parts[i].pieces,
                contents[c].ops,
            );
        }
    }
}

// ---------------------------------------------------------------------------------------------
// History.
// ---------------------------------------------------------------------------------------------
/// Intervals follow one another without a gap.
pub open spec fn contiguous(plans: Seq<PlanView>) -> bool {
    forall|i: int|
        0 <= i < plans.len() - 1 ==> (#[trigger] plans[i + 1]).seq_lo == plans[i].seq_hi + 1
}

proof fn lemma_intervals(
    parts: Seq<PartView>,
    refs: Seq<PartRefView>,
    generation: u32,
    w: WriterView,
    n: nat,
)
    requires
        n <= parts.len() == refs.len(),
        forall|i: int| 0 <= i < refs.len() ==> (#[trigger] refs[i]).seq_hi < u64::MAX,
        refold::rebuilt_among(parts, refs, generation, w, n) is Ok,
    ensures
        ({
            let (plans, lo) = refold::rebuilt_among(parts, refs, generation, w, n)->Ok_0;
            &&& contiguous(plans)
            &&& plans.len() == 0 ==> lo == refs[0].seq_lo
            &&& plans.len() > 0 ==> plans[0].seq_lo == refs[0].seq_lo && lo == plans.last().seq_hi
                + 1
            &&& (forall|q: int|
                n <= q < parts.len() ==> (#[trigger] refold::kept(parts, q)).len() == 0)
                && plans.len() > 0 ==> plans.last().seq_hi == refs.last().seq_hi
        }),
    decreases n,
{
    if n > 0 {
        lemma_intervals(parts, refs, generation, w, (n - 1) as nat);
        let (before, lo0) = refold::rebuilt_among(
            parts,
            refs,
            generation,
            w,
            (n - 1) as nat,
        )->Ok_0;
        let (plans, lo) = refold::rebuilt_among(parts, refs, generation, w, n)->Ok_0;
        if refold::kept(parts, n - 1).len() > 0 {
            assert(plans.last().seq_lo == lo0);
            assert forall|i: int| 0 <= i < plans.len() - 1 implies (#[trigger] plans[i + 1]).seq_lo
                == plans[i].seq_hi + 1 by {
                assert(plans[i] == before[i]);
                if i + 1 < before.len() {
                    assert(plans[i + 1] == before[i + 1]);
                }
            }
            if forall|q: int|
                n <= q < parts.len() ==> (#[trigger] refold::kept(parts, q)).len() == 0 {
                assert(refold::last_kept(parts, n - 1));
            }
            if before.len() > 0 {
                assert(plans[0] == before[0]);
            }
            assert(refs.last() == refs[refs.len() - 1]);
            assert(refs[n - 1].seq_hi < u64::MAX);
        }
    }
}

/// Rebuilt parts describe the same history as the parts they stand for: from the first sequence to
/// the last, without a gap.
pub proof fn lemma_refold_history(
    parts: Seq<PartView>,
    refs: Seq<PartRefView>,
    generation: u32,
    w: WriterView,
)
    requires
        0 < parts.len() == refs.len(),
        forall|i: int| 0 <= i < refs.len() ==> (#[trigger] refs[i]).seq_hi < u64::MAX,
        refold::rebuilt(parts, refs, generation, w) is Ok,
    ensures
        ({
            let plans = refold::rebuilt(parts, refs, generation, w)->Ok_0;
            &&& plans.len() > 0
            &&& contiguous(plans)
            &&& plans[0].seq_lo == refs[0].seq_lo
            &&& plans.last().seq_hi == refs.last().seq_hi
        }),
{
    lemma_intervals(parts, refs, generation, w, parts.len());
}

} // verus!
