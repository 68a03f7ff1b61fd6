//! What staging a log again gives: every piece that an unpublished frame introduces is known, and
//! nothing else came into the window.

use crate::fold;
use crate::fold::{FoldError, FoldView, Loc};
use crate::part;
use crate::part::PartView;
use crate::store::engine_laws;
use crate::store::logged_laws;
use crate::store::open::ReadStoreView;
use crate::store::recover;
use crate::store::wal::FrameView;
use crate::store::wire;
use crate::store::writer;
use crate::store::writer::{Novel, StageError, WriterView};
use vstd::prelude::*;

verus! {

// ---------------------------------------------------------------------------------------------
// Dictionaries over two folds.
// ---------------------------------------------------------------------------------------------
/// Whatever a part's dictionary names and one fold reads, the other reads.
pub open spec fn backed(parts: Seq<PartView>, g: FoldView, f: FoldView) -> bool {
    forall|p: int, h: Seq<u8>|
        0 <= p < parts.len() && ((#[trigger] part::find_loc(parts[p].pieces, h)) matches Some(loc)
            && fold::fold_read(g, loc, h) is Ok) ==> fold::fold_read(
            f,
            part::find_loc(parts[p].pieces, h)->0,
            h,
        ) is Ok
}

/// Over a fold that backs another, the parts locate what they did.
pub proof fn lemma_located_backed(
    parts: Seq<PartView>,
    g: FoldView,
    f: FoldView,
    h: Seq<u8>,
    n: nat,
)
    requires
        n <= parts.len(),
        writer::extends(f, g),
        backed(parts, g, f),
        writer::located_in(parts, g, h, n) is Ok,
    ensures
        writer::located_in(parts, f, h, n) == writer::located_in(parts, g, h, n),
    decreases n,
{
    if n > 0 {
        match part::find_loc(parts[n - 1].pieces, h) {
            None => {
                lemma_located_backed(parts, g, f, h, (n - 1) as nat);
            },
            Some(loc) => {
                if fold::in_ranges(g.punched, loc.block_id) {
                    lemma_located_backed(parts, g, f, h, (n - 1) as nat);
                }
            },
        }
    }
}

/// A fold that backs another serves the same parts.
pub proof fn lemma_backed_serves(parts: Seq<PartView>, g: FoldView, f: FoldView)
    requires
        writer::extends(f, g),
        backed(parts, g, f),
    ensures
        logged_laws::serves(parts, g, parts, f),
{
    assert forall|h: Seq<u8>|
        (#[trigger] writer::located_in(parts, g, h, parts.len())) matches Ok(Some(loc)) implies (
    writer::located_in(parts, f, h, parts.len()) matches Ok(Some(at)) && fold::fold_read(f, at, h)
        == fold::fold_read(g, (writer::located_in(parts, g, h, parts.len())->Ok_0)->0, h)) by {
        lemma_located_backed(parts, g, f, h, parts.len());
        writer::lemma_located_in(parts, f, h, parts.len());
        let loc = (writer::located_in(parts, g, h, parts.len())->Ok_0)->0;
        assert(fold::fold_read(g, loc, h) == fold::fold_read(f, loc, h));
    }
}

/// The parts locate nothing exactly where none of them has an entry that was not given up.
pub proof fn lemma_unlocated(parts: Seq<PartView>, f: FoldView, h: Seq<u8>, n: nat)
    requires
        n <= parts.len(),
    ensures
        writer::located_in(parts, f, h, n) == Ok::<Option<Loc>, FoldError>(None) <==> (forall|
            p: int,
        |
            0 <= p < n ==> !((#[trigger] part::find_loc(parts[p].pieces, h)) matches Some(loc)
                && !fold::in_ranges(f.punched, loc.block_id))),
    decreases n,
{
    if n > 0 {
        lemma_unlocated(parts, f, h, (n - 1) as nat);
    }
}

/// A known piece is located, where the parts do not map it to bytes that are not it.
pub proof fn lemma_known_located(parts: Seq<PartView>, w: WriterView, h: Seq<u8>)
    requires
        recover::known(parts, w, h),
        writer::located_in(parts, w.fold, h, parts.len()) is Ok,
    ensures
        writer::located_piece(parts, w.fold, w.window, h) matches Ok(Some(_)),
{
    if part::find_loc(w.window, h) is None {
        lemma_unlocated(parts, w.fold, h, parts.len());
        let p = choose|p: int|
            0 <= p < parts.len() && (part::find_loc((#[trigger] parts[p]).pieces, h) matches Some(
                loc,
            ) && !fold::in_ranges(w.fold.punched, loc.block_id));
        assert(part::find_loc(parts[p].pieces, h) is Some);
    }
}

/// What was known stays known.
proof fn lemma_known_stays(parts: Seq<PartView>, w: WriterView, after: WriterView, h: Seq<u8>)
    requires
        writer::keeps(w, after),
        recover::known(parts, w, h),
    ensures
        recover::known(parts, after, h),
{
    if part::find_loc(w.window, h) is Some {
        assert(part::find_loc(after.window, h) == part::find_loc(w.window, h));
    } else {
        let p = choose|p: int|
            0 <= p < parts.len() && (part::find_loc((#[trigger] parts[p]).pieces, h) matches Some(
                loc,
            ) && !fold::in_ranges(w.fold.punched, loc.block_id));
        assert(part::find_loc(parts[p].pieces, h) is Some);
    }
}

/// A piece that is not known is nowhere.
proof fn lemma_unknown(parts: Seq<PartView>, w: WriterView, f: FoldView, h: Seq<u8>)
    requires
        f.punched == w.fold.punched,
        !recover::known(parts, w, h),
    ensures
        part::find_loc(w.window, h) is None,
        writer::located_in(parts, f, h, parts.len()) == Ok::<Option<Loc>, FoldError>(None),
{
    lemma_unlocated(parts, f, h, parts.len());
    assert forall|p: int| 0 <= p < parts.len() implies !((#[trigger] part::find_loc(
        parts[p].pieces,
        h,
    )) matches Some(loc) && !fold::in_ranges(f.punched, loc.block_id)) by {
        assert(part::find_loc(parts[p].pieces, h) == part::find_loc(parts[p].pieces, h));
    }
}

// ---------------------------------------------------------------------------------------------
// Folding a frame's pieces again.
// ---------------------------------------------------------------------------------------------
/// A writer over a fold after the pieces of a frame were folded again: each is known, each that no
/// part held is stored as it is, and nothing else came into the window.
spec fn again(parts: Seq<PartView>, w: WriterView, after: WriterView, novel: Novel, n: nat) -> bool {
    &&& writer::keeps(w, after)
    &&& forall|j: int| 0 <= j < n ==> recover::known(parts, after, (#[trigger] novel[j]).0)
    &&& forall|h: Seq<u8>|
        (#[trigger] part::find_loc(after.window, h)) is Some && part::find_loc(w.window, h) is None
            ==> writer::located_in(parts, w.fold, h, parts.len()) == Ok::<Option<Loc>, FoldError>(
            None,
        ) && exists|j: int| 0 <= j < n && (#[trigger] novel[j]).0 == h
    &&& forall|j: int|
        0 <= j < n && part::find_loc(w.window, (#[trigger] novel[j]).0) is None
            && writer::located_in(parts, w.fold, novel[j].0, parts.len()) == Ok::<
            Option<Loc>,
            FoldError,
        >(None) && (forall|i: int| 0 <= i < j ==> (#[trigger] novel[i]).0 != novel[j].0)
            ==> logged_laws::piece_stored(parts, after, novel[j].0, novel[j].1)
}

proof fn lemma_again(parts: Seq<PartView>, w: WriterView, novel: Novel, n: nat)
    requires
        writer::writer_ok(w),
        n <= novel.len(),
        forall|j: int|
            0 <= j < novel.len() ==> recover::novel_sound((#[trigger] novel[j]).0, novel[j].1),
        recover::refolded(parts, w, novel, n) is Ok,
    ensures
        again(parts, w, recover::refolded(parts, w, novel, n)->Ok_0, novel, n),
    decreases n,
{
    if n > 0 {
        lemma_again(parts, w, novel, (n - 1) as nat);
        let before = recover::refolded(parts, w, novel, (n - 1) as nat)->Ok_0;
        let after = recover::refolded(parts, w, novel, n)->Ok_0;
        let (h, b) = novel[n - 1];
        assert(recover::novel_sound(novel[n - 1].0, novel[n - 1].1));
        let fresh = !recover::known(parts, before, h);
        if fresh {
            lemma_unknown(parts, before, w.fold, h);
            lemma_unknown(parts, before, after.fold, h);
            writer::lemma_appended(before, b);
            let loc = (writer::appended(before, h, b)->0).1;
            assert(writer::keeps(before, after)) by {
                assert forall|x: Seq<u8>|
                    part::find_loc(before.window, x) is Some implies #[trigger] part::find_loc(
                    after.window,
                    x,
                ) == part::find_loc(before.window, x) by {
                    writer::lemma_find_pushed(before.window, h, loc, x);
                }
            }
            logged_laws::lemma_keeps_trans(w, before, after);
            writer::lemma_find_pushed(before.window, h, loc, h);
            assert(part::find_loc(after.window, h) == Some(loc));
            assert(part::find_loc(w.window, h) is None) by {
                if part::find_loc(w.window, h) is Some {
                    assert(part::find_loc(before.window, h) == part::find_loc(w.window, h));
                }
            }
        }
        assert forall|j: int| 0 <= j < n implies recover::known(
            parts,
            after,
            (#[trigger] novel[j]).0,
        ) by {
            if j < n - 1 && fresh {
                assert(recover::known(parts, before, novel[j].0));
                lemma_known_stays(parts, before, after, novel[j].0);
            }
        }
        assert forall|x: Seq<u8>|
            (#[trigger] part::find_loc(after.window, x)) is Some && part::find_loc(
                w.window,
                x,
            ) is None implies writer::located_in(parts, w.fold, x, parts.len()) == Ok::<
            Option<Loc>,
            FoldError,
        >(None) && exists|j: int| 0 <= j < n && (#[trigger] novel[j]).0 == x by {
            if part::find_loc(before.window, x) is Some {
                let j = choose|j: int| 0 <= j < n - 1 && (#[trigger] novel[j]).0 == x;
                assert(0 <= j < n && novel[j].0 == x);
            } else {
                let loc = (writer::appended(before, h, b)->0).1;
                writer::lemma_find_pushed(before.window, h, loc, x);
                assert(novel[n - 1].0 == x);
            }
        }
        assert forall|j: int|
            0 <= j < n && part::find_loc(w.window, (#[trigger] novel[j]).0) is None
                && writer::located_in(parts, w.fold, novel[j].0, parts.len()) == Ok::<
                Option<Loc>,
                FoldError,
            >(None) && (forall|i: int|
                0 <= i < j ==> (#[trigger] novel[i]).0
                    != novel[j].0) implies logged_laws::piece_stored(
            parts,
            after,
            novel[j].0,
            novel[j].1,
        ) by {
            let x = novel[j].0;
            if j < n - 1 {
                assert(logged_laws::piece_stored(parts, before, x, novel[j].1));
                if fresh {
                    logged_laws::lemma_none_located(parts, w.fold, before.fold, x, parts.len());
                    let loc = part::find_loc(before.window, x)->0;
                    assert(part::find_loc(after.window, x) == Some(loc));
                    assert(fold::fold_read(after.fold, loc, x) == fold::fold_read(
                        before.fold,
                        loc,
                        x,
                    ));
                }
            } else if !fresh {
                if part::find_loc(before.window, h) is Some {
                    let i = choose|i: int| 0 <= i < n - 1 && (#[trigger] novel[i]).0 == h;
                    assert(novel[i].0 != novel[j].0);
                } else {
                    lemma_unlocated(parts, w.fold, h, parts.len());
                    let p = choose|p: int|
                        0 <= p < parts.len() && (part::find_loc(
                            (#[trigger] parts[p]).pieces,
                            h,
                        ) matches Some(loc) && !fold::in_ranges(
                            before.fold.punched,
                            loc.block_id,
                        ));
                    assert(part::find_loc(parts[p].pieces, h) is Some);
                }
            }
        }
    }
}

// ---------------------------------------------------------------------------------------------
// Staging the log again.
// ---------------------------------------------------------------------------------------------
/// A writer over a committed state after the first `n` frames of its log were staged again.
pub open spec fn restaged(
    v: ReadStoreView,
    w: WriterView,
    frames: Seq<FrameView>,
    n: nat,
) -> bool {
    &&& writer::writer_ok(w)
    &&& writer::extends(v.fold, w.fold)
    &&& forall|h: Seq<u8>|
        (#[trigger] part::find_loc(w.window, h)) is Some ==> writer::located_in(
            v.parts,
            v.fold,
            h,
            v.parts.len(),
        ) == Ok::<Option<Loc>, FoldError>(None) && exists|i: int|
            0 <= i < n && !recover::redundant(v.manifest, (#[trigger] frames[i]).seq)
                && wire::find_novel(frames[i].novel, h) is Some
    &&& forall|i: int, j: int|
        0 <= i < n && !recover::redundant(v.manifest, frames[i].seq) && 0 <= j
            < frames[i].novel.len() ==> recover::known(
            v.parts,
            w,
            (#[trigger] frames[i].novel[j]).0,
        ) && (writer::located_in(v.parts, v.fold, frames[i].novel[j].0, v.parts.len()) == Ok::<
            Option<Loc>,
            FoldError,
        >(None) ==> logged_laws::piece_stored(
            v.parts,
            w,
            frames[i].novel[j].0,
            frames[i].novel[j].1,
        ))
}

/// A log that was walked is staged again, piece by piece.
pub proof fn lemma_restaged(v: ReadStoreView, w: WriterView, frames: Seq<FrameView>, n: nat)
    requires
        n <= frames.len(),
        writer::writer_ok(w),
        w.fold == v.fold,
        w.window.len() == 0,
        recover::walk(v, frames, frames.len()) is Ok,
        recover::staged_log(v, w, frames, n) is Ok,
    ensures
        restaged(v, recover::staged_log(v, w, frames, n)->Ok_0.writer, frames, n),
    decreases n,
{
    let parts = v.parts;
    if n == 0 {
        assert forall|h: Seq<u8>| (#[trigger] part::find_loc(w.window, h)) is None by {
            writer::lemma_find_loc(w.window, h);
        }
    } else {
        lemma_restaged(v, w, frames, (n - 1) as nat);
        let before = recover::staged_log(v, w, frames, (n - 1) as nat)->Ok_0.writer;
        let after = recover::staged_log(v, w, frames, n)->Ok_0.writer;
        let f = frames[n - 1];
        logged_laws::lemma_pending(v, frames, frames.len());
        if !recover::redundant(v.manifest, f.seq) {
            assert forall|j: int| 0 <= j < f.novel.len() implies recover::novel_sound(
                (#[trigger] f.novel[j]).0,
                f.novel[j].1,
            ) by {
                assert(frames[n - 1].novel[j] == f.novel[j]);
            }
            lemma_again(parts, before, f.novel, f.novel.len());
            assert forall|h: Seq<u8>|
                (#[trigger] part::find_loc(after.window, h)) is Some implies writer::located_in(
                parts,
                v.fold,
                h,
                parts.len(),
            ) == Ok::<Option<Loc>, FoldError>(None) && exists|i: int|
                0 <= i < n && !recover::redundant(v.manifest, (#[trigger] frames[i]).seq)
                    && wire::find_novel(frames[i].novel, h) is Some by {
                if part::find_loc(before.window, h) is Some {
                    let i = choose|i: int|
                        0 <= i < n - 1 && !recover::redundant(
                            v.manifest,
                            (#[trigger] frames[i]).seq,
                        ) && wire::find_novel(frames[i].novel, h) is Some;
                    assert(0 <= i < n && !recover::redundant(v.manifest, frames[i].seq));
                } else {
                    logged_laws::lemma_none_located(parts, before.fold, v.fold, h, parts.len());
                    logged_laws::lemma_novel_found(f.novel, h);
                    assert(!recover::redundant(v.manifest, frames[n - 1].seq));
                }
            }
            assert forall|i: int, j: int|
                0 <= i < n && !recover::redundant(v.manifest, frames[i].seq) && 0 <= j
                    < frames[i].novel.len() implies recover::known(
                parts,
                after,
                (#[trigger] frames[i].novel[j]).0,
            ) && (writer::located_in(parts, v.fold, frames[i].novel[j].0, parts.len()) == Ok::<
                Option<Loc>,
                FoldError,
            >(None) ==> logged_laws::piece_stored(
                parts,
                after,
                frames[i].novel[j].0,
                frames[i].novel[j].1,
            )) by {
                let x = frames[i].novel[j].0;
                let b = frames[i].novel[j].1;
                if i < n - 1 {
                    lemma_known_stays(parts, before, after, x);
                    if writer::located_in(parts, v.fold, x, parts.len()) == Ok::<
                        Option<Loc>,
                        FoldError,
                    >(None) {
                        assert(logged_laws::piece_stored(parts, before, x, b));
                        logged_laws::lemma_none_located(
                            parts,
                            v.fold,
                            before.fold,
                            x,
                            parts.len(),
                        );
                        let loc = part::find_loc(before.window, x)->0;
                        assert(part::find_loc(after.window, x) == Some(loc));
                        assert(fold::fold_read(after.fold, loc, x) == fold::fold_read(
                            before.fold,
                            loc,
                            x,
                        ));
                    }
                } else {
                    assert(f.novel[j].0 == x);
                    if writer::located_in(parts, v.fold, x, parts.len()) == Ok::<
                        Option<Loc>,
                        FoldError,
                    >(None) {
                        logged_laws::lemma_none_located(
                            parts,
                            v.fold,
                            before.fold,
                            x,
                            parts.len(),
                        );
                        if part::find_loc(before.window, x) is Some {
                            let k = choose|k: int|
                                0 <= k < n - 1 && !recover::redundant(
                                    v.manifest,
                                    (#[trigger] frames[k]).seq,
                                ) && wire::find_novel(frames[k].novel, x) is Some;
                            logged_laws::lemma_novel_found(frames[k].novel, x);
                            let l = choose|l: int|
                                0 <= l < frames[k].novel.len() && #[trigger] frames[k].novel[l]
                                    == (x, wire::find_novel(frames[k].novel, x)->0);
                            assert(frames[k].novel[l].0 != frames[n - 1].novel[j].0);
                        }
                        assert forall|i2: int| 0 <= i2 < j implies (#[trigger] f.novel[i2]).0
                            != f.novel[j].0 by {
                            logged_laws::lemma_frame_distinct(v, frames, n - 1, i2, j);
                        }
                    }
                }
            }
            assert(writer::extends(v.fold, after.fold)) by {
                assert forall|loc: Loc, h: Seq<u8>|
                    fold::fold_read(v.fold, loc, h) is Ok implies #[trigger] fold::fold_read(
                    after.fold,
                    loc,
                    h,
                ) == fold::fold_read(v.fold, loc, h) by {
                    assert(fold::fold_read(before.fold, loc, h) == fold::fold_read(
                        v.fold,
                        loc,
                        h,
                    ));
                }
            }
        } else {
            assert forall|h: Seq<u8>|
                (#[trigger] part::find_loc(after.window, h)) is Some implies exists|i: int|
                0 <= i < n && !recover::redundant(v.manifest, (#[trigger] frames[i]).seq)
                    && wire::find_novel(frames[i].novel, h) is Some by {
                let i = choose|i: int|
                    0 <= i < n - 1 && !recover::redundant(v.manifest, (#[trigger] frames[i]).seq)
                        && wire::find_novel(frames[i].novel, h) is Some;
                assert(0 <= i < n && !recover::redundant(v.manifest, frames[i].seq));
            }
        }
    }
}

/// A log is staged again, or the fold has no block id left for it.
pub proof fn lemma_only_full(v: ReadStoreView, w: WriterView, frames: Seq<FrameView>, n: nat)
    ensures
        recover::staged_log(v, w, frames, n) matches Err(e) ==> e == StageError::Full,
    decreases n,
{
    if n > 0 {
        lemma_only_full(v, w, frames, (n - 1) as nat);
        if let Ok(at) = recover::staged_log(v, w, frames, (n - 1) as nat) {
            let novel = frames[n - 1].novel;
            lemma_refold_full(v.parts, at.writer, novel, novel.len());
        }
    }
}

proof fn lemma_refold_full(parts: Seq<PartView>, w: WriterView, novel: Novel, n: nat)
    ensures
        recover::refolded(parts, w, novel, n) matches Err(e) ==> e == StageError::Full,
    decreases n,
{
    if n > 0 {
        lemma_refold_full(parts, w, novel, (n - 1) as nat);
    }
}

} // verus!
