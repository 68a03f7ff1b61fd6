//! What a log carries of what a store has staged: every piece that a staged program names is in the
//! parts, or among the pieces that the log introduces.

use crate::fold;
use crate::fold::{FoldError, FoldView, Loc};
use crate::hash;
use crate::part;
use crate::part::PartView;
use crate::store::admission;
use crate::store::admission::{SpanView, SpansView};
use crate::store::carve;
use crate::store::engine_laws;
use crate::store::manifest::ManifestView;
use crate::store::open::ReadStoreView;
use crate::store::recover;
use crate::store::recover::{ReplayError, WalkView};
use crate::store::wal::FrameView;
use crate::store::wire;
use crate::store::writer;
use crate::store::writer::{Novel, WriterView};
use crate::types;
use crate::types::{ContentView, OpView};
use vstd::prelude::*;

verus! {

// ---------------------------------------------------------------------------------------------
// The invariant.
// ---------------------------------------------------------------------------------------------
/// A piece is located, and what is stored there is it.
pub open spec fn piece_stored(parts: Seq<PartView>, w: WriterView, h: Seq<u8>, b: Seq<u8>) -> bool {
    writer::located_piece(parts, w.fold, w.window, h) matches Ok(Some(loc)) && fold::fold_read(
        w.fold,
        loc,
        h,
    ) == Ok::<Seq<u8>, FoldError>(b)
}

/// Whether a frame that is not published yet introduces a piece.
pub open spec fn introduces(m: ManifestView, frames: Seq<FrameView>, h: Seq<u8>) -> bool {
    exists|i: int|
        0 <= i < frames.len() && !recover::redundant(m, (#[trigger] frames[i]).seq)
            && wire::find_novel(frames[i].novel, h) is Some
}

/// Every piece that frames introduce is stored.
pub open spec fn novel_stored(parts: Seq<PartView>, w: WriterView, frames: Seq<FrameView>) -> bool {
    forall|i: int, j: int|
        0 <= i < frames.len() && 0 <= j < frames[i].novel.len() ==> piece_stored(
            parts,
            w,
            (#[trigger] frames[i].novel[j]).0,
            frames[i].novel[j].1,
        )
}

/// Every piece in a window is in the parts too, or a frame that is not published yet introduces
/// it. No part maps it to bytes that are not it.
pub open spec fn window_logged(v: ReadStoreView, w: WriterView, frames: Seq<FrameView>) -> bool {
    forall|h: Seq<u8>|
        (#[trigger] part::find_loc(w.window, h)) is Some ==> match writer::located_in(
            v.parts,
            w.fold,
            h,
            v.parts.len(),
        ) {
            Err(_) => false,
            Ok(Some(_)) => true,
            Ok(None) => introduces(v.manifest, frames, h),
        }
}

/// A committed state over another fold.
pub open spec fn over(v: ReadStoreView, f: FoldView) -> ReadStoreView {
    ReadStoreView { fold: f, ..v }
}

/// A log that a writer over a committed state has written: it replays over what the writer has, and
/// whatever the writer staged is in the parts or in the log.
pub open spec fn logged(v: ReadStoreView, w: WriterView, frames: Seq<FrameView>) -> bool {
    &&& recover::walk(over(v, w.fold), frames, frames.len()) is Ok
    &&& novel_stored(v.parts, w, frames)
    &&& window_logged(v, w, frames)
}

// ---------------------------------------------------------------------------------------------
// Dictionaries.
// ---------------------------------------------------------------------------------------------
/// Where no part holds a piece, that is so over any fold with the same blocks given up.
pub proof fn lemma_none_located(
    parts: Seq<PartView>,
    f: FoldView,
    g: FoldView,
    h: Seq<u8>,
    n: nat,
)
    requires
        g.punched == f.punched,
        writer::located_in(parts, f, h, n) == Ok::<Option<Loc>, FoldError>(None),
    ensures
        writer::located_in(parts, g, h, n) == Ok::<Option<Loc>, FoldError>(None),
    decreases n,
{
    if n > 0 {
        lemma_none_located(parts, f, g, h, (n - 1) as nat);
    }
}

/// What is located over a fold is located at the same place over one that reads more.
pub proof fn lemma_located_more(
    parts: Seq<PartView>,
    f: FoldView,
    g: FoldView,
    h: Seq<u8>,
)
    requires
        writer::extends(f, g),
        writer::located_in(parts, f, h, parts.len()) is Ok,
    ensures
        writer::located_in(parts, g, h, parts.len()) == writer::located_in(
            parts,
            f,
            h,
            parts.len(),
        ),
{
    engine_laws::lemma_located_in_extends(parts, f, g, h, parts.len());
}

/// A piece pushed behind others is found where none of them answers.
pub proof fn lemma_novel_pushed(p: Novel, h: Seq<u8>, b: Seq<u8>, x: Seq<u8>)
    ensures
        wire::find_novel(p.push((h, b)), x) == match wire::find_novel(p, x) {
            Some(y) => Some(y),
            None => if x == h {
                Some(b)
            } else {
                None
            },
        },
    decreases p.len(),
{
    let more = p.push((h, b));
    if p.len() == 0 {
        assert(more.drop_first() =~= Seq::<(Seq<u8>, Seq<u8>)>::empty());
        assert(wire::find_novel(more.drop_first(), x) is None);
    } else {
        assert(more.drop_first() =~= p.drop_first().push((h, b)));
        lemma_novel_pushed(p.drop_first(), h, b, x);
    }
}

/// What is found is one of the pieces; where nothing is, none has the identity.
pub proof fn lemma_novel_found(p: Novel, h: Seq<u8>)
    ensures
        match wire::find_novel(p, h) {
            Some(b) => exists|j: int| 0 <= j < p.len() && #[trigger] p[j] == (h, b),
            None => forall|j: int| 0 <= j < p.len() ==> (#[trigger] p[j]).0 != h,
        },
    decreases p.len(),
{
    if p.len() > 0 {
        if p[0].0 == h {
            assert(p[0] == (h, p[0].1));
        } else {
            let rest = p.drop_first();
            lemma_novel_found(rest, h);
            match wire::find_novel(rest, h) {
                Some(b) => {
                    let j = choose|j: int| 0 <= j < rest.len() && #[trigger] rest[j] == (h, b);
                    assert(p[j + 1] == (h, b));
                },
                None => {
                    assert forall|j: int| 0 <= j < p.len() implies (#[trigger] p[j]).0 != h by {
                        if j > 0 {
                            assert(rest[j - 1] == p[j]);
                        }
                    }
                },
            }
        }
    }
}

// ---------------------------------------------------------------------------------------------
// What folding a record leaves.
// ---------------------------------------------------------------------------------------------
/// A writer after pieces were folded, and what is new: every new piece was nowhere before, is
/// stored, and is new once; and what came into the window is in the parts or new.
spec fn accounted(parts: Seq<PartView>, w: WriterView, after: WriterView, novel: Novel) -> bool {
    &&& writer::keeps(w, after)
    &&& engine_laws::relocates(parts, w, after)
    &&& forall|j: int|
        0 <= j < novel.len() ==> piece_stored(
            parts,
            after,
            (#[trigger] novel[j]).0,
            novel[j].1,
        ) && recover::novel_sound(novel[j].0, novel[j].1) && writer::located_piece(
            parts,
            w.fold,
            w.window,
            novel[j].0,
        ) == Ok::<Option<Loc>, FoldError>(None)
    &&& forall|j: int, k: int|
        0 <= j < k < novel.len() ==> (#[trigger] novel[j]).0 != (#[trigger] novel[k]).0
    &&& forall|h: Seq<u8>|
        (#[trigger] part::find_loc(after.window, h)) is Some && part::find_loc(w.window, h) is None
            ==> match writer::located_in(parts, after.fold, h, parts.len()) {
            Err(_) => false,
            Ok(Some(_)) => true,
            Ok(None) => wire::find_novel(novel, h) is Some,
        }
}

proof fn lemma_stored_stays(parts: Seq<PartView>, w: WriterView, after: WriterView, h: Seq<u8>, b: Seq<u8>)
    requires
        writer::extends(w.fold, after.fold),
        engine_laws::relocates(parts, w, after),
        piece_stored(parts, w, h, b),
    ensures
        piece_stored(parts, after, h, b),
{
    let loc = (writer::located_piece(parts, w.fold, w.window, h)->Ok_0)->0;
    assert(writer::located_piece(parts, after.fold, after.window, h) == writer::located_piece(
        parts,
        w.fold,
        w.window,
        h,
    ));
    assert(fold::fold_read(after.fold, loc, h) == fold::fold_read(w.fold, loc, h));
}

pub proof fn lemma_keeps_trans(a: WriterView, b: WriterView, c: WriterView)
    requires
        writer::keeps(a, b),
        writer::keeps(b, c),
    ensures
        writer::keeps(a, c),
{
    assert forall|x: Seq<u8>| part::find_loc(a.window, x) is Some implies #[trigger] part::find_loc(
        c.window,
        x,
    ) == part::find_loc(a.window, x) by {
        assert(part::find_loc(b.window, x) == part::find_loc(a.window, x));
    }
    assert forall|loc: Loc, h: Seq<u8>|
        fold::fold_read(a.fold, loc, h) is Ok implies #[trigger] fold::fold_read(c.fold, loc, h)
        == fold::fold_read(a.fold, loc, h) by {
        assert(fold::fold_read(b.fold, loc, h) == fold::fold_read(a.fold, loc, h));
    }
}

proof fn lemma_account_piece(
    parts: Seq<PartView>,
    w: WriterView,
    before: WriterView,
    news: Novel,
    b: Seq<u8>,
)
    requires
        writer::writer_ok(w),
        accounted(parts, w, before, news),
        b.len() <= u32::MAX,
        writer::folded(parts, before, b) is Ok,
    ensures
        ({
            let (after, loc, deduped) = writer::folded(parts, before, b)->Ok_0;
            let h = hash::blake3_digest(b);
            accounted(
                parts,
                w,
                after,
                if deduped {
                    news
                } else {
                    news.push((h, b))
                },
            )
        }),
{
    let (after, loc, deduped) = writer::folded(parts, before, b)->Ok_0;
    let h = hash::blake3_digest(b);
    let novel = if deduped {
        news
    } else {
        news.push((h, b))
    };
    writer::lemma_folded(parts, before, b);
    engine_laws::lemma_folded_relocates(parts, before, b);
    engine_laws::lemma_relocates_trans(parts, w, before, after);
    lemma_keeps_trans(w, before, after);
    if !deduped {
        assert(writer::located_piece(parts, before.fold, before.window, h) == Ok::<
            Option<Loc>,
            FoldError,
        >(None));
        lemma_none_located(parts, before.fold, after.fold, h, parts.len());
        lemma_none_located(parts, before.fold, w.fold, h, parts.len());
        assert(part::find_loc(w.window, h) is None) by {
            if part::find_loc(w.window, h) is Some {
                assert(part::find_loc(before.window, h) == part::find_loc(w.window, h));
            }
        }
    }
    assert forall|j: int| 0 <= j < novel.len() implies piece_stored(
        parts,
        after,
        (#[trigger] novel[j]).0,
        novel[j].1,
    ) && recover::novel_sound(novel[j].0, novel[j].1) && writer::located_piece(
        parts,
        w.fold,
        w.window,
        novel[j].0,
    ) == Ok::<Option<Loc>, FoldError>(None) by {
        if j < news.len() {
            assert(novel[j] == news[j]);
            lemma_stored_stays(parts, before, after, news[j].0, news[j].1);
        } else {
            assert(part::find_loc(after.window, h) == Some(loc));
        }
    }
    assert forall|j: int, k: int| 0 <= j < k < novel.len() implies (#[trigger] novel[j]).0 != (
    #[trigger] novel[k]).0 by {
        assert(novel[j] == news[j]);
        if k < news.len() {
            assert(novel[k] == news[k]);
        } else {
            assert(piece_stored(parts, before, news[j].0, news[j].1));
        }
    }
    assert forall|x: Seq<u8>|
        (#[trigger] part::find_loc(after.window, x)) is Some && part::find_loc(
            w.window,
            x,
        ) is None implies match writer::located_in(parts, after.fold, x, parts.len()) {
        Err(_) => false,
        Ok(Some(_)) => true,
        Ok(None) => wire::find_novel(novel, x) is Some,
    } by {
        lemma_novel_pushed(news, h, b, x);
        writer::lemma_find_pushed(before.window, h, loc, x);
        if part::find_loc(before.window, x) is Some {
            lemma_located_more(parts, before.fold, after.fold, x);
        } else {
            assert(x == h);
            if deduped {
                lemma_located_more(parts, before.fold, after.fold, h);
            }
        }
    }
}

proof fn lemma_account_spans(
    parts: Seq<PartView>,
    w: WriterView,
    before: WriterView,
    news: Novel,
    spans: Seq<SpanView>,
    n: nat,
)
    requires
        writer::writer_ok(w),
        accounted(parts, w, before, news),
        !admission::any_too_long(spans),
        n <= spans.len(),
        writer::folded_spans(parts, before, news, spans, n) is Ok,
    ensures
        ({
            let (after, novel) = writer::folded_spans(parts, before, news, spans, n)->Ok_0;
            accounted(parts, w, after, novel)
        }),
    decreases n,
{
    if n > 0 {
        lemma_account_spans(parts, w, before, news, spans, (n - 1) as nat);
        let (at, so_far) = writer::folded_spans(parts, before, news, spans, (n - 1) as nat)->Ok_0;
        assert(!admission::span_too_long(spans[n - 1]));
        if admission::is_piece(spans[n - 1]) {
            lemma_account_piece(parts, w, at, so_far, admission::span_bytes(spans[n - 1]));
        }
    }
}

proof fn lemma_account_contents(
    parts: Seq<PartView>,
    w: WriterView,
    contents: Seq<SpansView>,
    n: nat,
)
    requires
        writer::writer_ok(w),
        n <= contents.len(),
        forall|i: int| 0 <= i < n ==> !admission::any_too_long((#[trigger] contents[i]).spans),
        writer::folded_contents(parts, w, contents, n) is Ok,
    ensures
        ({
            let (after, novel) = writer::folded_contents(parts, w, contents, n)->Ok_0;
            accounted(parts, w, after, novel)
        }),
    decreases n,
{
    if n > 0 {
        lemma_account_contents(parts, w, contents, (n - 1) as nat);
        let (at, so_far) = writer::folded_contents(parts, w, contents, (n - 1) as nat)->Ok_0;
        let spans = contents[n - 1].spans;
        lemma_account_spans(parts, w, at, so_far, spans, spans.len());
    }
}

// ---------------------------------------------------------------------------------------------
// Walking the log.
// ---------------------------------------------------------------------------------------------
/// What frames introduce, piece by piece.
proof fn lemma_introduced(p: Novel, novel: Novel, n: nat)
    requires
        n <= novel.len(),
        recover::introduced(p, novel, n) is Ok,
    ensures
        ({
            let q = recover::introduced(p, novel, n)->Ok_0;
            &&& forall|x: Seq<u8>|
                (#[trigger] wire::find_novel(q, x)) is Some ==> wire::find_novel(q, x)
                    == wire::find_novel(p, x) || exists|j: int|
                    0 <= j < n && #[trigger] novel[j] == (x, wire::find_novel(q, x)->0)
            &&& forall|x: Seq<u8>|
                wire::find_novel(p, x) is Some ==> #[trigger] wire::find_novel(q, x)
                    == wire::find_novel(p, x)
            &&& forall|j: int|
                0 <= j < n ==> wire::find_novel(q, (#[trigger] novel[j]).0) == Some(novel[j].1)
                    && wire::find_novel(p, novel[j].0) is None
        }),
    decreases n,
{
    if n > 0 {
        lemma_introduced(p, novel, (n - 1) as nat);
        let before = recover::introduced(p, novel, (n - 1) as nat)->Ok_0;
        let q = recover::introduced(p, novel, n)->Ok_0;
        let (h, b) = novel[n - 1];
        assert(novel[n - 1] == (h, b));
        assert forall|x: Seq<u8>| (#[trigger] wire::find_novel(q, x)) is Some implies (
        wire::find_novel(q, x) == wire::find_novel(p, x) || exists|j: int|
            0 <= j < n && #[trigger] novel[j] == (x, wire::find_novel(q, x)->0)) by {
            lemma_novel_pushed(before, h, b, x);
            if wire::find_novel(before, x) is Some {
                if wire::find_novel(before, x) != wire::find_novel(p, x) {
                    let j = choose|j: int|
                        0 <= j < n - 1 && #[trigger] novel[j] == (
                            x,
                            wire::find_novel(before, x)->0,
                        );
                    assert(novel[j] == (x, wire::find_novel(q, x)->0));
                }
            }
        }
        assert forall|x: Seq<u8>| wire::find_novel(p, x) is Some implies #[trigger] wire::find_novel(
            q,
            x,
        ) == wire::find_novel(p, x) by {
            lemma_novel_pushed(before, h, b, x);
            assert(wire::find_novel(before, x) == wire::find_novel(p, x));
        }
        assert forall|j: int| 0 <= j < n implies wire::find_novel(q, (#[trigger] novel[j]).0)
            == Some(novel[j].1) && wire::find_novel(p, novel[j].0) is None by {
            lemma_novel_pushed(before, h, b, novel[j].0);
            if j == n - 1 && wire::find_novel(p, h) is Some {
                assert(wire::find_novel(before, h) == wire::find_novel(p, h));
            }
        }
    }
}

/// What a walk has pending is what its frames introduced, each once.
pub proof fn lemma_pending(v: ReadStoreView, frames: Seq<FrameView>, n: nat)
    requires
        n <= frames.len(),
        recover::walk(v, frames, n) is Ok,
    ensures
        ({
            let p = recover::walk(v, frames, n)->Ok_0.pending;
            &&& forall|x: Seq<u8>|
                (#[trigger] wire::find_novel(p, x)) is Some ==> exists|i: int, j: int|
                    0 <= i < n && 0 <= j < frames[i].novel.len() && #[trigger] frames[i].novel[j]
                        == (x, wire::find_novel(p, x)->0)
            &&& forall|i: int, j: int|
                0 <= i < n && 0 <= j < frames[i].novel.len() ==> wire::find_novel(
                    p,
                    (#[trigger] frames[i].novel[j]).0,
                ) == Some(frames[i].novel[j].1) && recover::novel_sound(
                    frames[i].novel[j].0,
                    frames[i].novel[j].1,
                )
            &&& forall|i: int, k: int, j: int, l: int|
                0 <= i < k < n && 0 <= j < frames[i].novel.len() && 0 <= l < frames[k].novel.len()
                    ==> (#[trigger] frames[i].novel[j]).0 != (#[trigger] frames[k].novel[l]).0
        }),
    decreases n,
{
    if n > 0 {
        lemma_pending(v, frames, (n - 1) as nat);
        let at = recover::walk(v, frames, (n - 1) as nat)->Ok_0;
        let f = frames[n - 1];
        let q = recover::introduced(at.pending, f.novel, f.novel.len())->Ok_0;
        lemma_introduced(at.pending, f.novel, f.novel.len());
        assert(recover::walk(v, frames, n)->Ok_0.pending == q);
        assert forall|x: Seq<u8>| (#[trigger] wire::find_novel(q, x)) is Some implies exists|
            i: int,
            j: int,
        |
            0 <= i < n && 0 <= j < frames[i].novel.len() && #[trigger] frames[i].novel[j] == (
                x,
                wire::find_novel(q, x)->0,
            ) by {
            if wire::find_novel(q, x) == wire::find_novel(at.pending, x) {
                let (i, j) = choose|i: int, j: int|
                    0 <= i < n - 1 && 0 <= j < frames[i].novel.len()
                        && #[trigger] frames[i].novel[j] == (
                        x,
                        wire::find_novel(at.pending, x)->0,
                    );
                assert(frames[i].novel[j] == (x, wire::find_novel(q, x)->0));
            } else {
                let j = choose|j: int|
                    0 <= j < f.novel.len() && #[trigger] f.novel[j] == (
                        x,
                        wire::find_novel(q, x)->0,
                    );
                assert(frames[n - 1].novel[j] == (x, wire::find_novel(q, x)->0));
            }
        }
        assert forall|i: int, j: int|
            0 <= i < n && 0 <= j < frames[i].novel.len() implies wire::find_novel(
            q,
            (#[trigger] frames[i].novel[j]).0,
        ) == Some(frames[i].novel[j].1) && recover::novel_sound(
            frames[i].novel[j].0,
            frames[i].novel[j].1,
        ) by {
            if i == n - 1 {
                recover::lemma_introduced_sound(at.pending, f.novel, f.novel.len(), j);
                assert(f.novel[j] == frames[i].novel[j]);
            } else {
                assert(wire::find_novel(at.pending, frames[i].novel[j].0) is Some);
            }
        }
        assert forall|i: int, k: int, j: int, l: int|
            0 <= i < k < n && 0 <= j < frames[i].novel.len() && 0 <= l
                < frames[k].novel.len() implies (#[trigger] frames[i].novel[j]).0 != (
        #[trigger] frames[k].novel[l]).0 by {
            if k == n - 1 {
                assert(f.novel[l] == frames[k].novel[l]);
                assert(wire::find_novel(at.pending, frames[i].novel[j].0) is Some);
            }
        }
    }
}

/// A frame of a walked log introduces each piece once.
pub proof fn lemma_frame_distinct(v: ReadStoreView, frames: Seq<FrameView>, k: int, i: int, j: int)
    requires
        recover::walk(v, frames, frames.len()) is Ok,
        0 <= k < frames.len(),
        0 <= i < j < frames[k].novel.len(),
    ensures
        frames[k].novel[i].0 != frames[k].novel[j].0,
{
    recover::lemma_walk_each(v, frames, frames.len(), k);
    let at = recover::walk(v, frames, k as nat)->Ok_0;
    let novel = frames[k].novel;
    lemma_introduced_each(at.pending, novel, novel.len(), j);
    lemma_introduced(at.pending, novel, j as nat);
    assert(novel[i].0 == novel[i].0);
}

proof fn lemma_introduced_each(p: Novel, novel: Novel, n: nat, j: int)
    requires
        recover::introduced(p, novel, n) is Ok,
        0 <= j < n <= novel.len(),
    ensures
        recover::introduced(p, novel, j as nat) is Ok,
        wire::find_novel(recover::introduced(p, novel, j as nat)->Ok_0, novel[j].0) is None,
    decreases n,
{
    if j < n - 1 {
        lemma_introduced_each(p, novel, (n - 1) as nat, j);
    }
}

/// Whatever the parts locate over one fold, other parts locate over another, with the same bytes.
pub open spec fn serves(a: Seq<PartView>, f: FoldView, b: Seq<PartView>, g: FoldView) -> bool {
    forall|h: Seq<u8>|
        (#[trigger] writer::located_in(a, f, h, a.len())) matches Ok(Some(loc)) ==> (
        writer::located_in(b, g, h, b.len()) matches Ok(Some(at)) && fold::fold_read(g, at, h)
            == fold::fold_read(f, loc, h))
}

proof fn lemma_program_served(
    v: ReadStoreView,
    u: ReadStoreView,
    pending: Novel,
    ops: Seq<OpView>,
)
    requires
        serves(v.parts, v.fold, u.parts, u.fold),
        recover::logged_program(v, pending, ops) is Ok,
    ensures
        recover::logged_program(u, pending, ops) == recover::logged_program(v, pending, ops),
    decreases ops.len(),
{
    if ops.len() > 0 {
        lemma_program_served(v, u, pending, ops.drop_last());
        if let OpView::Piece { hash, len } = ops.last() {
            if wire::find_novel(pending, hash) is None {
                assert(writer::located_in(v.parts, v.fold, hash, v.parts.len()) matches Ok(
                    Some(_),
                ));
            }
        }
    }
}

proof fn lemma_values_served(
    v: ReadStoreView,
    u: ReadStoreView,
    pending: Novel,
    contents: Seq<ContentView>,
    n: nat,
)
    requires
        n <= contents.len(),
        serves(v.parts, v.fold, u.parts, u.fold),
        recover::frame_values_fault(v, pending, contents, n) is None,
    ensures
        recover::frame_values_fault(u, pending, contents, n) is None,
    decreases n,
{
    if n > 0 {
        lemma_values_served(v, u, pending, contents, (n - 1) as nat);
        lemma_program_served(v, u, pending, contents[n - 1].ops);
    }
}

/// Frames in the order that a revision accepts: published ones, and then pending ones.
pub open spec fn in_order(m: ManifestView, frames: Seq<FrameView>, n: nat) -> bool {
    &&& forall|i: int|
        0 <= i < n ==> recover::redundant(m, (#[trigger] frames[i]).seq) || recover::is_pending(
            m,
            frames[i].seq,
        )
    &&& forall|i: int, j: int|
        0 <= i < j < n && recover::redundant(m, (#[trigger] frames[j]).seq) ==> recover::redundant(
            m,
            (#[trigger] frames[i]).seq,
        )
}

/// A log that was walked over one state is walked over another that serves it, and has the same
/// pending.
pub proof fn lemma_walk_served(
    v: ReadStoreView,
    u: ReadStoreView,
    frames: Seq<FrameView>,
    n: nat,
)
    requires
        n <= frames.len(),
        serves(v.parts, v.fold, u.parts, u.fold),
        recover::walk(v, frames, n) is Ok,
        in_order(u.manifest, frames, n),
    ensures
        recover::walk(u, frames, n) is Ok,
        recover::walk(u, frames, n)->Ok_0.pending == recover::walk(v, frames, n)->Ok_0.pending,
        recover::walk(u, frames, n)->Ok_0.saw_pending ==> exists|i: int|
            0 <= i < n && !recover::redundant(u.manifest, (#[trigger] frames[i]).seq),
    decreases n,
{
    if n > 0 {
        lemma_walk_served(v, u, frames, (n - 1) as nat);
        let at = recover::walk(v, frames, (n - 1) as nat)->Ok_0;
        let here = recover::walk(u, frames, (n - 1) as nat)->Ok_0;
        let f = frames[n - 1];
        assert(recover::walked(v, at, f) is Ok);
        let pending = recover::introduced(at.pending, f.novel, f.novel.len())->Ok_0;
        lemma_values_served(v, u, pending, f.record.contents, f.record.contents.len());
        if recover::redundant(u.manifest, f.seq) && here.saw_pending {
            let i = choose|i: int|
                0 <= i < n - 1 && !recover::redundant(u.manifest, (#[trigger] frames[i]).seq);
            assert(recover::redundant(u.manifest, frames[n - 1].seq));
            assert(recover::redundant(u.manifest, frames[i].seq));
        }
        if recover::walk(u, frames, n)->Ok_0.saw_pending && here.saw_pending {
            let i = choose|i: int|
                0 <= i < n - 1 && !recover::redundant(u.manifest, (#[trigger] frames[i]).seq);
            assert(0 <= i < n && !recover::redundant(u.manifest, frames[i].seq));
        }
    }
}

proof fn lemma_walk_same(v: ReadStoreView, a: Seq<FrameView>, b: Seq<FrameView>, n: nat)
    requires
        n <= a.len(),
        n <= b.len(),
        forall|i: int| 0 <= i < n ==> a[i] == b[i],
    ensures
        recover::walk(v, a, n) == recover::walk(v, b, n),
    decreases n,
{
    if n > 0 {
        lemma_walk_same(v, a, b, (n - 1) as nat);
    }
}

/// A walk that succeeded found its frames in order.
pub proof fn lemma_walk_order(v: ReadStoreView, frames: Seq<FrameView>, n: nat)
    requires
        n <= frames.len(),
        recover::walk(v, frames, n) is Ok,
    ensures
        in_order(v.manifest, frames, n),
        recover::walk(v, frames, n)->Ok_0.saw_pending <==> (exists|i: int|
            0 <= i < n && recover::is_pending(v.manifest, (#[trigger] frames[i]).seq)),
    decreases n,
{
    if n > 0 {
        lemma_walk_order(v, frames, (n - 1) as nat);
        let at = recover::walk(v, frames, (n - 1) as nat)->Ok_0;
        assert(recover::walked(v, at, frames[n - 1]) is Ok);
    }
}

/// A fold that reads more serves the same parts.
pub proof fn lemma_extends_serves(parts: Seq<PartView>, f: FoldView, g: FoldView)
    requires
        writer::extends(f, g),
    ensures
        serves(parts, f, parts, g),
{
    assert forall|h: Seq<u8>|
        (#[trigger] writer::located_in(parts, f, h, parts.len())) matches Ok(Some(loc)) implies (
    writer::located_in(parts, g, h, parts.len()) matches Ok(Some(at)) && fold::fold_read(g, at, h)
        == fold::fold_read(f, (writer::located_in(parts, f, h, parts.len())->Ok_0)->0, h)) by {
        lemma_located_more(parts, f, g, h);
        writer::lemma_located_in(parts, f, h, parts.len());
        let loc = (writer::located_in(parts, f, h, parts.len())->Ok_0)->0;
        assert(fold::fold_read(g, loc, h) == fold::fold_read(f, loc, h));
    }
}

// ---------------------------------------------------------------------------------------------
// One more frame.
// ---------------------------------------------------------------------------------------------
/// Frames with one more keep what is stored, and add what is new.
proof fn lemma_push_stored(
    parts: Seq<PartView>,
    w: WriterView,
    after: WriterView,
    frames: Seq<FrameView>,
    fr: FrameView,
)
    requires
        novel_stored(parts, w, frames),
        accounted(parts, w, after, fr.novel),
    ensures
        novel_stored(parts, after, frames.push(fr)),
{
    let all = frames.push(fr);
    assert forall|i: int, j: int| 0 <= i < all.len() && 0 <= j
        < all[i].novel.len() implies piece_stored(
        parts,
        after,
        (#[trigger] all[i].novel[j]).0,
        all[i].novel[j].1,
    ) by {
        if i < frames.len() {
            assert(all[i] == frames[i]);
            assert(piece_stored(parts, w, frames[i].novel[j].0, frames[i].novel[j].1));
            lemma_stored_stays(parts, w, after, frames[i].novel[j].0, frames[i].novel[j].1);
        } else {
            assert(all[i].novel[j] == fr.novel[j]);
        }
    }
}

proof fn lemma_push_window(
    v: ReadStoreView,
    w: WriterView,
    after: WriterView,
    frames: Seq<FrameView>,
    fr: FrameView,
)
    requires
        window_logged(v, w, frames),
        accounted(v.parts, w, after, fr.novel),
        !recover::redundant(v.manifest, fr.seq),
    ensures
        window_logged(v, after, frames.push(fr)),
{
    let all = frames.push(fr);
    assert forall|h: Seq<u8>|
        (#[trigger] part::find_loc(after.window, h)) is Some implies match writer::located_in(
        v.parts,
        after.fold,
        h,
        v.parts.len(),
    ) {
        Err(_) => false,
        Ok(Some(_)) => true,
        Ok(None) => introduces(v.manifest, all, h),
    } by {
        if part::find_loc(w.window, h) is Some {
            lemma_located_more(v.parts, w.fold, after.fold, h);
            if writer::located_in(v.parts, w.fold, h, v.parts.len()) == Ok::<
                Option<Loc>,
                FoldError,
            >(None) {
                let i = choose|i: int|
                    0 <= i < frames.len() && !recover::redundant(
                        v.manifest,
                        (#[trigger] frames[i]).seq,
                    ) && wire::find_novel(frames[i].novel, h) is Some;
                assert(all[i] == frames[i]);
                assert(introduces(v.manifest, all, h));
            }
        } else if wire::find_novel(fr.novel, h) is Some {
            assert(all[frames.len() as int] == fr);
            assert(introduces(v.manifest, all, h));
        }
    }
}

/// What a frame introduces was nowhere before, so that it is introduced once.
proof fn lemma_push_introduced(
    parts: Seq<PartView>,
    w: WriterView,
    after: WriterView,
    p: Novel,
    novel: Novel,
    n: nat,
)
    requires
        n <= novel.len(),
        accounted(parts, w, after, novel),
        forall|x: Seq<u8>|
            (#[trigger] wire::find_novel(p, x)) is Some ==> (writer::located_piece(
                parts,
                w.fold,
                w.window,
                x,
            ) matches Ok(Some(_))),
    ensures
        recover::introduced(p, novel, n) is Ok,
        forall|x: Seq<u8>|
            (#[trigger] wire::find_novel(recover::introduced(p, novel, n)->Ok_0, x)) is Some
                ==> wire::find_novel(p, x) is Some || exists|j: int|
                0 <= j < n && (#[trigger] novel[j]).0 == x,
    decreases n,
{
    if n > 0 {
        lemma_push_introduced(parts, w, after, p, novel, (n - 1) as nat);
        let before = recover::introduced(p, novel, (n - 1) as nat)->Ok_0;
        let (h, b) = novel[n - 1];
        assert(novel[n - 1].0 == h);
        if wire::find_novel(before, h) is Some {
            if wire::find_novel(p, h) is None {
                let j = choose|j: int| 0 <= j < n - 1 && (#[trigger] novel[j]).0 == h;
                assert(novel[j].0 != novel[n - 1].0);
            }
        }
        assert forall|x: Seq<u8>|
            (#[trigger] wire::find_novel(
                recover::introduced(p, novel, n)->Ok_0,
                x,
            )) is Some implies wire::find_novel(p, x) is Some || exists|j: int|
            0 <= j < n && (#[trigger] novel[j]).0 == x by {
            lemma_novel_pushed(before, h, b, x);
            if wire::find_novel(before, x) is Some && wire::find_novel(p, x) is None {
                let j = choose|j: int| 0 <= j < n - 1 && (#[trigger] novel[j]).0 == x;
                assert(novel[j].0 == x);
            }
        }
    }
}

/// A logged program of carved spans reads as the spans, where stored bytes of a piece's identity
/// are that piece.
proof fn lemma_carved_program(
    v: ReadStoreView,
    w: WriterView,
    q: Novel,
    spans: Seq<SpanView>,
    n: nat,
)
    requires
        n <= spans.len(),
        v.fold == w.fold,
        !admission::any_too_long(spans),
        engine_laws::genuine(w.fold, spans),
        forall|i: int|
            0 <= i < spans.len() && admission::is_piece(#[trigger] spans[i]) ==> writer::windowed(
                w,
                admission::span_bytes(spans[i]),
            ),
        forall|h: Seq<u8>|
            (#[trigger] wire::find_novel(q, h)) matches Some(b) ==> piece_stored(
                v.parts,
                w,
                h,
                b,
            ),
        forall|h: Seq<u8>|
            (#[trigger] part::find_loc(w.window, h)) is Some && wire::find_novel(q, h) is None
                ==> (writer::located_in(v.parts, w.fold, h, v.parts.len()) matches Ok(Some(_))),
    ensures
        recover::logged_program(v, q, carve::span_ops(spans).take(n as int)) == Ok::<
            Seq<u8>,
            ReplayError,
        >(admission::spans_bytes(spans.take(n as int))),
    decreases n,
{
    let ops = carve::span_ops(spans);
    if n == 0 {
        assert(ops.take(0) =~= Seq::<OpView>::empty());
        assert(spans.take(0) =~= Seq::<SpanView>::empty());
    } else {
        lemma_carved_program(v, w, q, spans, (n - 1) as nat);
        assert(ops.take(n as int).drop_last() =~= ops.take(n - 1));
        assert(spans.take(n as int).drop_last() =~= spans.take(n - 1));
        let s = spans[n - 1];
        assert(ops.take(n as int).last() == carve::span_op(s));
        assert(!admission::span_too_long(s));
        if admission::is_piece(s) {
            let b = admission::span_bytes(s);
            let h = hash::blake3_digest(b);
            assert(writer::windowed(w, b));
            match wire::find_novel(q, h) {
                Some(x) => {
                    assert(piece_stored(v.parts, w, h, x));
                    let loc = (writer::located_piece(v.parts, w.fold, w.window, h)->Ok_0)->0;
                    assert(fold::fold_read(w.fold, loc, h)->Ok_0 == b);
                },
                None => {
                    writer::lemma_located_in(v.parts, w.fold, h, v.parts.len());
                    let loc = (writer::located_in(v.parts, w.fold, h, v.parts.len())->Ok_0)->0;
                    assert(fold::fold_read(w.fold, loc, h)->Ok_0 == b);
                },
            }
        }
    }
}

proof fn lemma_carved_values(
    v: ReadStoreView,
    w: WriterView,
    q: Novel,
    contents: Seq<SpansView>,
    to: Seq<ContentView>,
    n: nat,
)
    requires
        n <= to.len(),
        types::canonical_of(carve::carved_all(contents), to),
        v.fold == w.fold,
        forall|i: int|
            0 <= i < contents.len() ==> !admission::any_too_long((#[trigger] contents[i]).spans)
                && engine_laws::genuine(w.fold, contents[i].spans),
        forall|i: int, k: int|
            0 <= i < contents.len() && 0 <= k < contents[i].spans.len() && admission::is_piece(
                #[trigger] contents[i].spans[k],
            ) ==> writer::windowed(w, admission::span_bytes(contents[i].spans[k])),
        forall|h: Seq<u8>|
            (#[trigger] wire::find_novel(q, h)) matches Some(b) ==> piece_stored(
                v.parts,
                w,
                h,
                b,
            ),
        forall|h: Seq<u8>|
            (#[trigger] part::find_loc(w.window, h)) is Some && wire::find_novel(q, h) is None
                ==> (writer::located_in(v.parts, w.fold, h, v.parts.len()) matches Ok(Some(_))),
    ensures
        recover::frame_values_fault(v, q, to, n) is None,
    decreases n,
{
    if n > 0 {
        lemma_carved_values(v, w, q, contents, to, (n - 1) as nat);
        let all = carve::carved_all(contents);
        let c = to[n - 1];
        all.to_multiset_ensures();
        to.to_multiset_ensures();
        assert(to.contains(c));
        assert(all.to_multiset().count(c) > 0);
        assert(all.contains(c));
        let k = choose|k: int| 0 <= k < all.len() && all[k] == c;
        let spans = contents[k].spans;
        assert forall|i: int| 0 <= i < spans.len() && admission::is_piece(
            #[trigger] spans[i],
        ) implies writer::windowed(w, admission::span_bytes(spans[i])) by {
            assert(contents[k].spans[i] == spans[i]);
        }
        lemma_carved_program(v, w, q, spans, spans.len());
        assert(carve::span_ops(spans).take(spans.len() as int) =~= carve::span_ops(spans));
        assert(spans.take(spans.len() as int) =~= spans);
    }
}

/// A record that was folded and framed leaves a log of its writer, where stored bytes of its
/// pieces' identities are those pieces.
pub proof fn lemma_push_record(
    v: ReadStoreView,
    w: WriterView,
    after: WriterView,
    frames: Seq<FrameView>,
    fr: FrameView,
    contents: Seq<SpansView>,
)
    requires
        writer::writer_ok(w),
        logged(v, w, frames),
        recover::is_pending(v.manifest, fr.seq),
        forall|i: int|
            0 <= i < contents.len() ==> !admission::any_too_long((#[trigger] contents[i]).spans)
                && engine_laws::genuine(after.fold, contents[i].spans),
        writer::folded_contents(v.parts, w, contents, contents.len()) == Ok::<
            (WriterView, Novel),
            writer::StageError,
        >((after, fr.novel)),
        types::canonical_of(carve::carved_all(contents), fr.record.contents),
    ensures
        logged(v, after, frames.push(fr)),
{
    let all = frames.push(fr);
    let parts = v.parts;
    let old = over(v, w.fold);
    let new = over(v, after.fold);
    lemma_account_contents(parts, w, contents, contents.len());
    writer::lemma_folded_contents(parts, w, contents, contents.len());
    lemma_push_stored(parts, w, after, frames, fr);
    lemma_push_window(v, w, after, frames, fr);
    lemma_extends_serves(parts, w.fold, after.fold);
    lemma_walk_order(old, frames, frames.len());
    lemma_walk_served(old, new, frames, frames.len());
    lemma_walk_same(new, frames, all, frames.len());
    lemma_pending(old, frames, frames.len());
    let at = recover::walk(new, frames, frames.len())->Ok_0;
    assert forall|x: Seq<u8>| (#[trigger] wire::find_novel(at.pending, x)) is Some implies (
    writer::located_piece(parts, w.fold, w.window, x) matches Ok(Some(_))) by {
        let (i, j) = choose|i: int, j: int|
            0 <= i < frames.len() && 0 <= j < frames[i].novel.len()
                && #[trigger] frames[i].novel[j] == (x, wire::find_novel(at.pending, x)->0);
        assert(piece_stored(parts, w, frames[i].novel[j].0, frames[i].novel[j].1));
    }
    lemma_push_introduced(parts, w, after, at.pending, fr.novel, fr.novel.len());
    let q = recover::introduced(at.pending, fr.novel, fr.novel.len())->Ok_0;
    lemma_introduced(at.pending, fr.novel, fr.novel.len());
    assert forall|h: Seq<u8>| (#[trigger] wire::find_novel(q, h)) matches Some(
        b,
    ) implies piece_stored(parts, after, h, wire::find_novel(q, h)->0) by {
        let b = wire::find_novel(q, h)->0;
        if wire::find_novel(q, h) == wire::find_novel(at.pending, h) {
            let (i, j) = choose|i: int, j: int|
                0 <= i < frames.len() && 0 <= j < frames[i].novel.len()
                    && #[trigger] frames[i].novel[j] == (h, wire::find_novel(at.pending, h)->0);
            assert(all[i].novel[j] == frames[i].novel[j]);
            assert(piece_stored(parts, after, all[i].novel[j].0, all[i].novel[j].1));
        } else {
            let j = choose|j: int|
                0 <= j < fr.novel.len() && #[trigger] fr.novel[j] == (h, b);
            assert(all[frames.len() as int].novel[j] == fr.novel[j]);
            assert(piece_stored(
                parts,
                after,
                all[frames.len() as int].novel[j].0,
                all[frames.len() as int].novel[j].1,
            ));
        }
    }
    assert forall|h: Seq<u8>|
        (#[trigger] part::find_loc(after.window, h)) is Some && wire::find_novel(
            q,
            h,
        ) is None implies (writer::located_in(parts, after.fold, h, parts.len()) matches Ok(
        Some(_),
    )) by {
        if introduces(v.manifest, all, h) {
            let i = choose|i: int|
                0 <= i < all.len() && !recover::redundant(v.manifest, (#[trigger] all[i]).seq)
                    && wire::find_novel(all[i].novel, h) is Some;
            lemma_novel_found(all[i].novel, h);
            let j = choose|j: int|
                0 <= j < all[i].novel.len() && #[trigger] all[i].novel[j] == (
                    h,
                    wire::find_novel(all[i].novel, h)->0,
                );
            if i < frames.len() {
                assert(frames[i].novel[j].0 == h);
                assert(wire::find_novel(at.pending, h) is Some);
            } else {
                assert(fr.novel[j].0 == h);
            }
            assert(wire::find_novel(q, h) is Some);
        }
    }
    lemma_carved_values(
        new,
        after,
        q,
        contents,
        fr.record.contents,
        fr.record.contents.len(),
    );
    assert(all[frames.len() as int] == fr);
    assert(recover::walked(new, at, fr) is Ok);
}

/// A frame that names and introduces nothing leaves a log of its writer.
pub proof fn lemma_push_bare(
    v: ReadStoreView,
    w: WriterView,
    frames: Seq<FrameView>,
    fr: FrameView,
)
    requires
        logged(v, w, frames),
        recover::is_pending(v.manifest, fr.seq),
        fr.record.contents.len() == 0,
        fr.novel.len() == 0,
    ensures
        logged(v, w, frames.push(fr)),
{
    let all = frames.push(fr);
    let at = over(v, w.fold);
    lemma_walk_same(at, frames, all, frames.len());
    assert(all[frames.len() as int] == fr);
    assert(recover::walked(at, recover::walk(at, frames, frames.len())->Ok_0, fr) is Ok);
    assert forall|i: int, j: int| 0 <= i < all.len() && 0 <= j
        < all[i].novel.len() implies piece_stored(
        v.parts,
        w,
        (#[trigger] all[i].novel[j]).0,
        all[i].novel[j].1,
    ) by {
        assert(all[i] == frames[i]);
        assert(piece_stored(v.parts, w, frames[i].novel[j].0, frames[i].novel[j].1));
    }
    assert forall|h: Seq<u8>|
        (#[trigger] part::find_loc(w.window, h)) is Some implies match writer::located_in(
        v.parts,
        w.fold,
        h,
        v.parts.len(),
    ) {
        Err(_) => false,
        Ok(Some(_)) => true,
        Ok(None) => introduces(v.manifest, all, h),
    } by {
        if introduces(v.manifest, frames, h) {
            let i = choose|i: int|
                0 <= i < frames.len() && !recover::redundant(
                    v.manifest,
                    (#[trigger] frames[i]).seq,
                ) && wire::find_novel(frames[i].novel, h) is Some;
            assert(all[i] == frames[i]);
        }
    }
}

} // verus!
