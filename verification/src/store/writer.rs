//! Folding: where pieces go, and how a piece already stored is found again.
//!
//! A piece is looked for in the window of pieces folded since the last publication, then in the
//! dictionaries of the parts, newest first. Only what neither knows is appended.

use crate::bytes;
use crate::fold;
use crate::fold::{Block, BlockView, Fold, FoldError, FoldView, Loc};
use crate::hash;
use crate::part;
use crate::part::{Part, PartView};
use crate::store::admission;
use crate::store::admission::{ContentSpans, Span, SpanView, SpansView};
use crate::store::wire;
use crate::types::PieceHash;
use vstd::prelude::*;

verus! {

/// The writing side of a fold.
#[derive(Debug, PartialEq, Eq)]
pub struct FoldWriter {
    pub fold: Fold,
    /// Blocks that grow no more.
    pub sealed: usize,
    /// Pieces folded or met since the last publication.
    pub window: Vec<(PieceHash, Loc)>,
    /// The size a block may grow to.
    pub target: u32,
}

/// View of a [`FoldWriter`].
pub struct WriterView {
    pub fold: FoldView,
    pub sealed: nat,
    pub window: Seq<(Seq<u8>, Loc)>,
    pub target: u32,
}

impl View for FoldWriter {
    type V = WriterView;

    open spec fn view(&self) -> WriterView {
        WriterView {
            fold: self.fold@,
            sealed: self.sealed as nat,
            window: part::dictionary_view(self.window@),
            target: self.target,
        }
    }
}

/// Why a piece was not folded.
#[derive(Clone, Copy, Debug, PartialEq, Eq, Structural)]
pub enum StageError {
    /// A dictionary maps the piece to bytes that are not it.
    Fold { error: FoldError },
    /// No block id is left.
    Full,
}

/// Where the first `n` parts hold a piece, the newest one first. A location that was given up is
/// historical residue and is passed over.
pub open spec fn located_in(parts: Seq<PartView>, f: FoldView, h: Seq<u8>, n: nat) -> Result<
    Option<Loc>,
    FoldError,
>
    decreases n,
{
    if n == 0 {
        Ok(None)
    } else {
        match part::find_loc(parts[n - 1].pieces, h) {
            None => located_in(parts, f, h, (n - 1) as nat),
            Some(loc) => if fold::in_ranges(f.punched, loc.block_id) {
                located_in(parts, f, h, (n - 1) as nat)
            } else {
                match fold::fold_read(f, loc, h) {
                    Ok(_) => Ok(Some(loc)),
                    Err(e) => Err(e),
                }
            },
        }
    }
}

/// Where a piece is: in the window, else in the parts.
pub open spec fn located_piece(
    parts: Seq<PartView>,
    f: FoldView,
    window: Seq<(Seq<u8>, Loc)>,
    h: Seq<u8>,
) -> Result<Option<Loc>, FoldError> {
    match part::find_loc(window, h) {
        Some(loc) => Ok(Some(loc)),
        None => located_in(parts, f, h, parts.len()),
    }
}

/// Where a piece is: in the window, else in the parts, newest first.
pub fn locate_verified_piece(
    parts: &Vec<Part>,
    f: &Fold,
    window: &Vec<(PieceHash, Loc)>,
    h: &PieceHash,
) -> (r: Result<Option<Loc>, FoldError>)
    ensures
        r == located_piece(part::parts_view(parts@), f@, part::dictionary_view(window@), h@),
{
    if let Some(loc) = part::lookup(window, h) {
        return Ok(Some(loc));
    }
    let ghost all = part::parts_view(parts@);
    let mut i: usize = parts.len();
    while i > 0
        invariant
            all == part::parts_view(parts@),
            i <= parts@.len(),
            part::find_loc(part::dictionary_view(window@), h@) is None,
            located_in(all, f@, h@, all.len()) == located_in(all, f@, h@, i as nat),
        decreases i,
    {
        i = i - 1;
        assert(all[i as int] == parts@[i as int]@);
        if let Some(loc) = parts[i].find_piece(h) {
            if !f.is_punched(loc.block_id) {
                return match f.read_verified(loc, h) {
                    Ok(_) => Ok(Some(loc)),
                    Err(e) => Err(e),
                };
            }
        }
    }
    Ok(None)
}

/// A writer after a piece was appended, and where it went.
pub open spec fn appended(w: WriterView, h: Seq<u8>, b: Seq<u8>) -> Option<(WriterView, Loc)> {
    let n = w.fold.blocks.len();
    if w.sealed < n <= u32::MAX && w.fold.blocks.last().bytes.len() + b.len() <= w.target {
        let last = w.fold.blocks.last();
        let loc = Loc {
            block_id: (n - 1) as u32,
            in_off: last.bytes.len() as u32,
            raw: b.len() as u32,
        };
        let grown = BlockView { bytes: last.bytes + b, ..last };
        Some(
            (
                WriterView {
                    fold: FoldView {
                        blocks: w.fold.blocks.update(n - 1, grown),
                        ..w.fold
                    },
                    window: w.window.push((h, loc)),
                    ..w
                },
                loc,
            ),
        )
    } else if n < u32::MAX {
        let loc = Loc { block_id: n as u32, in_off: 0, raw: b.len() as u32 };
        Some(
            (
                WriterView {
                    fold: FoldView {
                        blocks: w.fold.blocks.push(BlockView { segment: 0, end: 0, bytes: b }),
                        ..w.fold
                    },
                    window: w.window.push((h, loc)),
                    ..w
                },
                loc,
            ),
        )
    } else {
        None
    }
}

/// A writer that met a stored piece.
pub open spec fn noted(w: WriterView, h: Seq<u8>, loc: Loc) -> WriterView {
    if part::find_loc(w.window, h) is Some {
        w
    } else {
        WriterView { window: w.window.push((h, loc)), ..w }
    }
}

/// What folding one piece does: the writer after it, where the piece is, and whether it was stored
/// already.
pub open spec fn folded(parts: Seq<PartView>, w: WriterView, b: Seq<u8>) -> Result<
    (WriterView, Loc, bool),
    StageError,
> {
    let h = hash::blake3_digest(b);
    match located_piece(parts, w.fold, w.window, h) {
        Err(error) => Err(StageError::Fold { error }),
        Ok(Some(loc)) => Ok((noted(w, h, loc), loc, true)),
        Ok(None) => match appended(w, h, b) {
            Some((after, loc)) => Ok((after, loc, false)),
            None => Err(StageError::Full),
        },
    }
}

/// The novel pieces of a fold, in order: identity and bytes.
pub type Novel = Seq<(Seq<u8>, Seq<u8>)>;

/// What folding the first `n` spans does: the writer after them, and the pieces that are new.
pub open spec fn folded_spans(
    parts: Seq<PartView>,
    w: WriterView,
    novel: Novel,
    spans: Seq<SpanView>,
    n: nat,
) -> Result<(WriterView, Novel), StageError>
    decreases n,
{
    if n == 0 {
        Ok((w, novel))
    } else {
        match folded_spans(parts, w, novel, spans, (n - 1) as nat) {
            Err(e) => Err(e),
            Ok((before, news)) => if !admission::is_piece(spans[n - 1]) {
                Ok((before, news))
            } else {
                let b = admission::span_bytes(spans[n - 1]);
                match folded(parts, before, b) {
                    Err(e) => Err(e),
                    Ok((after, loc, deduped)) => Ok(
                        (
                            after,
                            if deduped {
                                news
                            } else {
                                news.push((hash::blake3_digest(b), b))
                            },
                        ),
                    ),
                }
            },
        }
    }
}

/// What folding the first `n` contents does.
pub open spec fn folded_contents(
    parts: Seq<PartView>,
    w: WriterView,
    contents: Seq<SpansView>,
    n: nat,
) -> Result<(WriterView, Novel), StageError>
    decreases n,
{
    if n == 0 {
        Ok((w, Seq::empty()))
    } else {
        match folded_contents(parts, w, contents, (n - 1) as nat) {
            Err(e) => Err(e),
            Ok((before, news)) => folded_spans(
                parts,
                before,
                news,
                contents[n - 1].spans,
                contents[n - 1].spans.len(),
            ),
        }
    }
}

proof fn lemma_spans_prefix(
    parts: Seq<PartView>,
    w: WriterView,
    novel: Novel,
    spans: Seq<SpanView>,
    k: nat,
    n: nat,
)
    requires
        k <= n,
        folded_spans(parts, w, novel, spans, k) is Err,
    ensures
        folded_spans(parts, w, novel, spans, n) == folded_spans(parts, w, novel, spans, k),
    decreases n,
{
    if k < n {
        lemma_spans_prefix(parts, w, novel, spans, k, (n - 1) as nat);
    }
}

proof fn lemma_contents_prefix(
    parts: Seq<PartView>,
    w: WriterView,
    contents: Seq<SpansView>,
    k: nat,
    n: nat,
)
    requires
        k <= n,
        folded_contents(parts, w, contents, k) is Err,
    ensures
        folded_contents(parts, w, contents, n) == folded_contents(parts, w, contents, k),
    decreases n,
{
    if k < n {
        lemma_contents_prefix(parts, w, contents, k, (n - 1) as nat);
    }
}

fn copy_bytes(b: &[u8]) -> (r: Vec<u8>)
    ensures
        r@ == b@,
{
    let mut out: Vec<u8> = Vec::new();
    bytes::append_bytes(&mut out, b);
    assert(out@ =~= b@);
    out
}

impl FoldWriter {
    /// Remember where a piece is.
    fn remember(&mut self, h: PieceHash, loc: Loc)
        ensures
            final(self)@ == (WriterView { window: old(self)@.window.push((h@, loc)), ..old(self)@ }),
    {
        let ghost before = self.window@;
        self.window.push((h, loc));
        assert(part::dictionary_view(self.window@) =~= part::dictionary_view(before).push(
            (h@, loc),
        ));
    }

    /// Append a piece.
    pub fn put_hashed(&mut self, b: &[u8], h: PieceHash) -> (r: Result<Loc, StageError>)
        requires
            b@.len() <= u32::MAX,
        ensures
            match r {
                Ok(loc) => appended(old(self)@, h@, b@) == Some((final(self)@, loc)),
                Err(e) => e == StageError::Full && appended(old(self)@, h@, b@) is None
                    && *final(self) == *old(self),
            },
    {
        let n: usize = self.fold.blocks.len();
        let ghost w = self@;
        let ghost blocks = self.fold.blocks@;
        if n > self.sealed {
            let held: usize = self.fold.blocks[n - 1].bytes.len();
            assert(w.fold.blocks.last() == blocks[n - 1]@);
            if held <= self.target as usize && b.len() <= self.target as usize - held && n
                <= u32::MAX as usize {
                let loc = Loc {
                    block_id: (n - 1) as u32,
                    in_off: held as u32,
                    raw: b.len() as u32,
                };
                let mut last = self.fold.blocks.pop().unwrap();
                bytes::append_bytes(&mut last.bytes, b);
                self.fold.blocks.push(last);
                proof {
                    let grown = BlockView { bytes: w.fold.blocks.last().bytes + b@, ..w.fold.blocks.last() };
                    assert(fold::blocks_view(self.fold.blocks@) =~= w.fold.blocks.update(
                        n - 1,
                        grown,
                    ));
                }
                self.remember(h, loc);
                return Ok(loc);
            }
        }
        if n as u64 >= u32::MAX as u64 {
            return Err(StageError::Full);
        }
        let loc = Loc { block_id: n as u32, in_off: 0, raw: b.len() as u32 };
        let block = Block { segment: 0, end: 0, bytes: copy_bytes(b) };
        let ghost added = block@;
        self.fold.blocks.push(block);
        proof {
            assert(added == BlockView { segment: 0, end: 0, bytes: b@ });
            assert(fold::blocks_view(self.fold.blocks@) =~= w.fold.blocks.push(added));
        }
        self.remember(h, loc);
        Ok(loc)
    }

    /// Fold one piece: find it, or append it.
    pub fn fold_piece(&mut self, parts: &Vec<Part>, b: &[u8]) -> (r: Result<(Loc, bool), StageError>)
        requires
            b@.len() <= u32::MAX,
        ensures
            match r {
                Ok((loc, deduped)) => folded(part::parts_view(parts@), old(self)@, b@) == Ok::<
                    (WriterView, Loc, bool),
                    StageError,
                >((final(self)@, loc, deduped)),
                Err(e) => folded(part::parts_view(parts@), old(self)@, b@) == Err::<
                    (WriterView, Loc, bool),
                    StageError,
                >(e) && *final(self) == *old(self),
            },
    {
        let h = PieceHash::of(b);
        match locate_verified_piece(parts, &self.fold, &self.window, &h) {
            Err(error) => Err(StageError::Fold { error }),
            Ok(Some(loc)) => {
                if part::lookup(&self.window, &h).is_none() {
                    self.remember(h, loc);
                }
                Ok((loc, true))
            },
            Ok(None) => match self.put_hashed(b, h) {
                Ok(loc) => Ok((loc, false)),
                Err(e) => Err(e),
            },
        }
    }

    /// Fold the spans of one content, and collect the pieces that are new.
    pub fn fold_spans<'a>(
        &mut self,
        parts: &Vec<Part>,
        spans: &Vec<Span<'a>>,
        novel: &mut Vec<(PieceHash, Vec<u8>)>,
    ) -> (r: Result<(), StageError>)
        requires
            !admission::any_too_long(admission::spans_view(spans@)),
        ensures
            ({
                let all = admission::spans_view(spans@);
                let out = folded_spans(
                    part::parts_view(parts@),
                    old(self)@,
                    wire::novel_view(old(novel)@),
                    all,
                    all.len(),
                );
                match r {
                    Ok(()) => out == Ok::<(WriterView, Novel), StageError>(
                        (final(self)@, wire::novel_view(final(novel)@)),
                    ),
                    Err(e) => out == Err::<(WriterView, Novel), StageError>(e),
                }
            }),
            writer_ok(old(self)@) ==> writer_ok(final(self)@),
            final(self)@.fold.punched == old(self)@.fold.punched,
    {
        let ghost all = admission::spans_view(spans@);
        let ghost w0 = self@;
        let ghost n0 = wire::novel_view(novel@);
        let ghost pv = part::parts_view(parts@);
        let mut i: usize = 0;
        while i < spans.len()
            invariant
                all == admission::spans_view(spans@),
                pv == part::parts_view(parts@),
                w0 == old(self)@,
                n0 == wire::novel_view(old(novel)@),
                !admission::any_too_long(all),
                i <= spans@.len(),
                writer_ok(w0) ==> writer_ok(self@),
                self@.fold.punched == w0.fold.punched,
                folded_spans(pv, w0, n0, all, i as nat) == Ok::<(WriterView, Novel), StageError>(
                    (self@, wire::novel_view(novel@)),
                ),
            decreases spans.len() - i,
        {
            assert(all[i as int] == spans@[i as int]@);
            assert(!admission::span_too_long(all[i as int]));
            if let Span::Piece(b) = spans[i] {
                if b.len() > 0 {
                    proof {
                        if writer_ok(self@) && folded(pv, self@, b@) is Ok {
                            lemma_folded(pv, self@, b@);
                        }
                    }
                    match self.fold_piece(parts, b) {
                        Err(e) => {
                            proof {
                                lemma_spans_prefix(pv, w0, n0, all, (i + 1) as nat, all.len());
                            }
                            return Err(e);
                        },
                        Ok((_, deduped)) => {
                            if !deduped {
                                let ghost before = novel@;
                                let h = PieceHash::of(b);
                                novel.push((h, copy_bytes(b)));
                                assert(wire::novel_view(novel@) =~= wire::novel_view(before).push(
                                    (h@, b@),
                                ));
                            }
                        },
                    }
                }
            }
            i = i + 1;
        }
        Ok(())
    }

    /// Fold every content of a record, and collect the pieces that are new.
    pub fn fold_contents<'a>(&mut self, parts: &Vec<Part>, contents: &[ContentSpans<'a>]) -> (r: Result<
        Vec<(PieceHash, Vec<u8>)>,
        StageError,
    >)
        requires
            forall|i: int|
                0 <= i < contents@.len() ==> !admission::any_too_long(
                    (#[trigger] admission::inputs_view(contents@)[i]).spans,
                ),
        ensures
            ({
                let all = admission::inputs_view(contents@);
                let out = folded_contents(part::parts_view(parts@), old(self)@, all, all.len());
                match r {
                    Ok(novel) => out == Ok::<(WriterView, Novel), StageError>(
                        (final(self)@, wire::novel_view(novel@)),
                    ),
                    Err(e) => out == Err::<(WriterView, Novel), StageError>(e),
                }
            }),
            writer_ok(old(self)@) ==> writer_ok(final(self)@),
            final(self)@.fold.punched == old(self)@.fold.punched,
    {
        let ghost all = admission::inputs_view(contents@);
        let ghost w0 = self@;
        let ghost pv = part::parts_view(parts@);
        let mut novel: Vec<(PieceHash, Vec<u8>)> = Vec::new();
        let mut i: usize = 0;
        assert(wire::novel_view(novel@) =~= Seq::<(Seq<u8>, Seq<u8>)>::empty());
        while i < contents.len()
            invariant
                all == admission::inputs_view(contents@),
                pv == part::parts_view(parts@),
                w0 == old(self)@,
                forall|k: int|
                    0 <= k < contents@.len() ==> !admission::any_too_long(
                        (#[trigger] all[k]).spans,
                    ),
                i <= contents@.len(),
                writer_ok(w0) ==> writer_ok(self@),
                self@.fold.punched == w0.fold.punched,
                folded_contents(pv, w0, all, i as nat) == Ok::<(WriterView, Novel), StageError>(
                    (self@, wire::novel_view(novel@)),
                ),
            decreases contents.len() - i,
        {
            assert(all[i as int] == contents@[i as int]@);
            if let Err(e) = self.fold_spans(parts, &contents[i].spans, &mut novel) {
                proof {
                    lemma_contents_prefix(pv, w0, all, (i + 1) as nat, all.len());
                }
                return Err(e);
            }
            i = i + 1;
        }
        Ok(novel)
    }
}

// ---------------------------------------------------------------------------------------------
// What folding keeps.
// ---------------------------------------------------------------------------------------------
/// A writer's window is sound: every entry reads as its piece, and what was given up is sealed.
pub open spec fn writer_ok(w: WriterView) -> bool {
    &&& w.sealed <= w.fold.blocks.len()
    &&& w.fold.blocks.len() <= u32::MAX
    &&& forall|id: u32| #[trigger] fold::in_ranges(w.fold.punched, id) ==> id < w.sealed
    &&& forall|i: int|
        0 <= i < w.window.len() ==> fold::fold_read(
            w.fold,
            (#[trigger] w.window[i]).1,
            w.window[i].0,
        ) is Ok
}

/// Whatever one fold reads, the other reads too.
pub open spec fn extends(f: FoldView, g: FoldView) -> bool {
    &&& g.punched == f.punched
    &&& forall|loc: Loc, h: Seq<u8>|
        fold::fold_read(f, loc, h) is Ok ==> #[trigger] fold::fold_read(g, loc, h)
            == fold::fold_read(f, loc, h)
}

/// Appending a piece keeps every readable piece readable, and makes the piece readable where the
/// append says it went.
pub proof fn lemma_appended(w: WriterView, b: Seq<u8>)
    requires
        writer_ok(w),
        b.len() <= u32::MAX,
        appended(w, hash::blake3_digest(b), b) is Some,
    ensures
        ({
            let h = hash::blake3_digest(b);
            let (after, loc) = appended(w, h, b)->0;
            &&& writer_ok(after)
            &&& extends(w.fold, after.fold)
            &&& fold::fold_read(after.fold, loc, h) == Ok::<Seq<u8>, FoldError>(b)
        }),
{
    let h = hash::blake3_digest(b);
    let (after, loc) = appended(w, h, b)->0;
    let n = w.fold.blocks.len();
    let f = w.fold;
    let g = after.fold;
    assert forall|l: Loc, x: Seq<u8>| fold::fold_read(f, l, x) is Ok implies #[trigger] fold::fold_read(
        g,
        l,
        x,
    ) == fold::fold_read(f, l, x) by {
        let old_block = f.blocks[l.block_id as int].bytes;
        let new_block = g.blocks[l.block_id as int].bytes;
        assert(l.block_id < n);
        assert(new_block.subrange(l.in_off as int, l.in_off + l.raw) =~= old_block.subrange(
            l.in_off as int,
            l.in_off + l.raw,
        ));
    }
    let block = g.blocks[loc.block_id as int].bytes;
    assert(block.subrange(loc.in_off as int, loc.in_off + loc.raw) =~= b);
    assert(!fold::in_ranges(g.punched, loc.block_id));
    assert forall|i: int| 0 <= i < after.window.len() implies fold::fold_read(
        g,
        (#[trigger] after.window[i]).1,
        after.window[i].0,
    ) is Ok by {
        if i < w.window.len() {
            assert(after.window[i] == w.window[i]);
            assert(fold::fold_read(f, w.window[i].1, w.window[i].0) is Ok);
        }
    }
}

/// A located piece reads as itself.
pub proof fn lemma_located_reads(
    parts: Seq<PartView>,
    w: WriterView,
    h: Seq<u8>,
)
    requires
        writer_ok(w),
        located_piece(parts, w.fold, w.window, h) matches Ok(Some(_)),
    ensures
        fold::fold_read(
            w.fold,
            (located_piece(parts, w.fold, w.window, h)->Ok_0)->0,
            h,
        ) is Ok,
{
    match part::find_loc(w.window, h) {
        Some(loc) => {
            lemma_find_loc(w.window, h);
        },
        None => {
            lemma_located_in(parts, w.fold, h, parts.len());
        },
    }
}

/// A dictionary's answer is one of its entries.
pub proof fn lemma_find_loc(pieces: Seq<(Seq<u8>, Loc)>, h: Seq<u8>)
    ensures
        match part::find_loc(pieces, h) {
            Some(loc) => exists|i: int|
                0 <= i < pieces.len() && #[trigger] pieces[i] == (h, loc),
            None => forall|i: int| 0 <= i < pieces.len() ==> (#[trigger] pieces[i]).0 != h,
        },
    decreases pieces.len(),
{
    if pieces.len() > 0 {
        if pieces[0].0 == h {
            assert(pieces[0] == (h, pieces[0].1));
        } else {
            let rest = pieces.drop_first();
            lemma_find_loc(rest, h);
            match part::find_loc(rest, h) {
                Some(loc) => {
                    let i = choose|i: int| 0 <= i < rest.len() && #[trigger] rest[i] == (h, loc);
                    assert(pieces[i + 1] == (h, loc));
                },
                None => {
                    assert forall|i: int| 0 <= i < pieces.len() implies (#[trigger] pieces[i]).0
                        != h by {
                        if i > 0 {
                            assert(rest[i - 1] == pieces[i]);
                        }
                    }
                },
            }
        }
    }
}

pub proof fn lemma_located_in(parts: Seq<PartView>, f: FoldView, h: Seq<u8>, n: nat)
    requires
        located_in(parts, f, h, n) matches Ok(Some(_)),
    ensures
        fold::fold_read(f, (located_in(parts, f, h, n)->Ok_0)->0, h) is Ok,
    decreases n,
{
    match part::find_loc(parts[n - 1].pieces, h) {
        None => {
            lemma_located_in(parts, f, h, (n - 1) as nat);
        },
        Some(loc) => {
            if fold::in_ranges(f.punched, loc.block_id) {
                lemma_located_in(parts, f, h, (n - 1) as nat);
            }
        },
    }
}

/// An entry pushed behind others is found where none of them answers.
pub proof fn lemma_find_pushed(pieces: Seq<(Seq<u8>, Loc)>, h: Seq<u8>, loc: Loc, x: Seq<u8>)
    ensures
        part::find_loc(pieces.push((h, loc)), x) == match part::find_loc(pieces, x) {
            Some(l) => Some(l),
            None => if x == h {
                Some(loc)
            } else {
                None
            },
        },
    decreases pieces.len(),
{
    let more = pieces.push((h, loc));
    if pieces.len() == 0 {
        assert(more.drop_first() =~= Seq::<(Seq<u8>, Loc)>::empty());
        assert(part::find_loc(more.drop_first(), x) is None);
    } else {
        assert(more.drop_first() =~= pieces.drop_first().push((h, loc)));
        lemma_find_pushed(pieces.drop_first(), h, loc, x);
    }
}

/// Folding a piece keeps a sound writer sound, keeps every readable piece readable, and leaves the
/// piece where the window finds it.
pub proof fn lemma_folded(parts: Seq<PartView>, w: WriterView, b: Seq<u8>)
    requires
        writer_ok(w),
        b.len() <= u32::MAX,
        folded(parts, w, b) is Ok,
    ensures
        ({
            let (after, loc, deduped) = folded(parts, w, b)->Ok_0;
            let h = hash::blake3_digest(b);
            &&& writer_ok(after)
            &&& extends(w.fold, after.fold)
            &&& part::find_loc(after.window, h) == Some(loc)
            &&& fold::fold_read(after.fold, loc, h) is Ok
            &&& !deduped ==> fold::fold_read(after.fold, loc, h) == Ok::<Seq<u8>, FoldError>(b)
            &&& forall|x: Seq<u8>|
                part::find_loc(w.window, x) is Some ==> #[trigger] part::find_loc(after.window, x)
                    == part::find_loc(w.window, x)
        }),
{
    let h = hash::blake3_digest(b);
    let (after, loc, deduped) = folded(parts, w, b)->Ok_0;
    assert forall|x: Seq<u8>| part::find_loc(w.window, x) is Some implies #[trigger] part::find_loc(
        after.window,
        x,
    ) == part::find_loc(w.window, x) by {
        lemma_find_pushed(w.window, h, loc, x);
    }
    lemma_find_pushed(w.window, h, loc, h);
    match located_piece(parts, w.fold, w.window, h) {
        Ok(Some(l)) => {
            lemma_located_reads(parts, w, h);
            assert forall|i: int| 0 <= i < after.window.len() implies fold::fold_read(
                after.fold,
                (#[trigger] after.window[i]).1,
                after.window[i].0,
            ) is Ok by {
                if i < w.window.len() {
                    assert(after.window[i] == w.window[i]);
                }
            }
        },
        _ => {
            lemma_appended(w, b);
        },
    }
}

/// A writer that came from another by folding: sound, reading everything the other reads, and
/// finding what the other's window finds.
pub open spec fn keeps(w: WriterView, after: WriterView) -> bool {
    &&& writer_ok(after)
    &&& extends(w.fold, after.fold)
    &&& forall|x: Seq<u8>|
        part::find_loc(w.window, x) is Some ==> #[trigger] part::find_loc(after.window, x)
            == part::find_loc(w.window, x)
}

/// A piece is in the window and reads.
pub open spec fn windowed(w: WriterView, b: Seq<u8>) -> bool {
    let h = hash::blake3_digest(b);
    &&& part::find_loc(w.window, h) is Some
    &&& fold::fold_read(w.fold, part::find_loc(w.window, h)->0, h) is Ok
}

/// A piece is stored once. Whatever else was folded since, folding it again appends nothing and
/// finds it where it went.
pub proof fn lemma_piece_stored_once(
    parts: Seq<PartView>,
    w: WriterView,
    b: Seq<u8>,
    more: Seq<PartView>,
    later: WriterView,
)
    requires
        writer_ok(w),
        b.len() <= u32::MAX,
        folded(parts, w, b) is Ok,
        keeps((folded(parts, w, b)->Ok_0).0, later),
    ensures
        folded(more, later, b) == Ok::<(WriterView, Loc, bool), StageError>(
            (later, (folded(parts, w, b)->Ok_0).1, true),
        ),
{
    lemma_folded(parts, w, b);
    let (after, loc, _) = folded(parts, w, b)->Ok_0;
    let h = hash::blake3_digest(b);
    assert(part::find_loc(after.window, h) == Some(loc));
    assert(part::find_loc(later.window, h) == Some(loc));
}

/// Folding spans keeps the writer sound and puts every piece into the window.
pub proof fn lemma_folded_spans(
    parts: Seq<PartView>,
    w: WriterView,
    novel: Novel,
    spans: Seq<SpanView>,
    n: nat,
)
    requires
        writer_ok(w),
        !admission::any_too_long(spans),
        n <= spans.len(),
        folded_spans(parts, w, novel, spans, n) is Ok,
    ensures
        keeps(w, (folded_spans(parts, w, novel, spans, n)->Ok_0).0),
        forall|i: int|
            0 <= i < n && admission::is_piece(#[trigger] spans[i]) ==> windowed(
                (folded_spans(parts, w, novel, spans, n)->Ok_0).0,
                admission::span_bytes(spans[i]),
            ),
    decreases n,
{
    if n > 0 {
        lemma_folded_spans(parts, w, novel, spans, (n - 1) as nat);
        let (before, news) = folded_spans(parts, w, novel, spans, (n - 1) as nat)->Ok_0;
        let s = spans[n - 1];
        assert(!admission::span_too_long(s));
        if admission::is_piece(s) {
            let b = admission::span_bytes(s);
            lemma_folded(parts, before, b);
            let after = (folded(parts, before, b)->Ok_0).0;
            assert forall|i: int| 0 <= i < n && admission::is_piece(#[trigger] spans[i]) implies windowed(
                after,
                admission::span_bytes(spans[i]),
            ) by {
                if i < n - 1 {
                    assert(windowed(before, admission::span_bytes(spans[i])));
                }
            }
        }
    }
}

/// Folding contents keeps the writer sound and puts every piece into the window.
pub proof fn lemma_folded_contents(
    parts: Seq<PartView>,
    w: WriterView,
    contents: Seq<SpansView>,
    n: nat,
)
    requires
        writer_ok(w),
        n <= contents.len(),
        forall|i: int| 0 <= i < n ==> !admission::any_too_long((#[trigger] contents[i]).spans),
        folded_contents(parts, w, contents, n) is Ok,
    ensures
        keeps(w, (folded_contents(parts, w, contents, n)->Ok_0).0),
        forall|i: int, k: int|
            0 <= i < n && 0 <= k < contents[i].spans.len() && admission::is_piece(
                #[trigger] contents[i].spans[k],
            ) ==> windowed(
                (folded_contents(parts, w, contents, n)->Ok_0).0,
                admission::span_bytes(contents[i].spans[k]),
            ),
    decreases n,
{
    if n > 0 {
        lemma_folded_contents(parts, w, contents, (n - 1) as nat);
        let (before, news) = folded_contents(parts, w, contents, (n - 1) as nat)->Ok_0;
        let spans = contents[n - 1].spans;
        lemma_folded_spans(parts, before, news, spans, spans.len());
        let after = (folded_spans(parts, before, news, spans, spans.len())->Ok_0).0;
        assert forall|i: int, k: int|
            0 <= i < n && 0 <= k < contents[i].spans.len() && admission::is_piece(
                #[trigger] contents[i].spans[k],
            ) implies windowed(after, admission::span_bytes(contents[i].spans[k])) by {
            if i < n - 1 {
                assert(windowed(before, admission::span_bytes(contents[i].spans[k])));
            }
        }
    }
}

} // verus!
