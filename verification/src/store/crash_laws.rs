//! What survives a crash: a store whose log was made durable opens again, and every value that read
//! before reads the same.

use crate::container::ContainerView;
use crate::fold;
use crate::fold::{FoldError, FoldView, Loc};
use crate::memtable;
use crate::part;
use crate::part::PartView;
use crate::read_limits::ReadLimits;
use crate::store::admission;
use crate::store::artifact;
use crate::store::audit;
use crate::store::chain;
use crate::store::engine;
use crate::store::engine::StoreView;
use crate::store::engine_laws;
use crate::store::engine_read;
use crate::store::log_laws;
use crate::store::log_laws::Entry;
use crate::store::logged_laws;
use crate::store::manifest::ManifestView;
use crate::store::open;
use crate::store::open::ReadStoreView;
use crate::store::publish;
use crate::store::publish::{EncodedPart, PlanView, PublishError};
use crate::store::publish_laws;
use crate::store::read;
use crate::store::recover;
use crate::store::recover::{OpenStoreFault, OpenVerification, StoreOptions};
use crate::store::recover_laws;
use crate::store::replay_laws;
use crate::store::roundtrip_laws;
use crate::store::settlement_laws;
use crate::store::staged_laws;
use crate::store::wal;
use crate::store::wal::FrameView;
use crate::store::wire;
use crate::store::writer;
use crate::store::writer::{Novel, StageError, WriterView};
use crate::types::{ContentView, OpView};
use vstd::prelude::*;

verus! {

// ---------------------------------------------------------------------------------------------
// The invariant, of a store.
// ---------------------------------------------------------------------------------------------
/// A store as a committed state over its writer's fold.
pub open spec fn as_view(s: StoreView) -> ReadStoreView {
    ReadStoreView {
        fold: s.writer.fold,
        parts: s.parts,
        manifest: s.manifest,
        read_limits: s.read_limits,
    }
}

/// A log that carries what a store has staged: it replays over the store, every piece it introduces
/// is stored, and every piece in the window is in the parts or introduced by it.
pub open spec fn staged_logged(log: Seq<Entry>, s: StoreView) -> bool {
    logged_laws::logged(as_view(s), s.writer, log_laws::log_applied(log))
}

/// A log whose bytes a store has written, and the rest of which it holds to be written.
pub open spec fn wired(log: Seq<Entry>, s: StoreView) -> bool {
    &&& s.wal.written() + s.wal.buffered().len() == log_laws::log_wire(log).len()
    &&& s.wal.buffered() == log_laws::log_wire(log).skip(s.wal.written() as int)
}

/// A log that whoever reads under a store's limits admits.
pub open spec fn admitted(log: Seq<Entry>, s: StoreView) -> bool {
    &&& s.wal.limits() == s.read_limits
    &&& log_laws::log_ok(log, s.read_limits)
    &&& log_laws::log_frames(log) == s.wal.frames()
    &&& s.wal.frames() <= s.read_limits.max_wal_frames
}

/// The log of a store: its rows are what the store staged, it carries what the store staged, its
/// bytes are those that the store wrote or holds to be written, and the store's limits admit it.
pub open spec fn carried(log: Seq<Entry>, s: StoreView) -> bool {
    &&& recover_laws::covers(log, s)
    &&& staged_logged(log, s)
    &&& wired(log, s)
    &&& admitted(log, s)
}

/// A log that replays over a store.
pub open spec fn replays(log: Seq<Entry>, s: StoreView) -> bool {
    let frames = log_laws::log_applied(log);
    recover::walk(as_view(s), frames, frames.len()) is Ok
}

/// A log that carries what a store staged replays over it.
pub proof fn lemma_logged_replays(log: Seq<Entry>, s: StoreView)
    requires
        staged_logged(log, s),
    ensures
        replays(log, s),
{
    assert(logged_laws::over(as_view(s), s.writer.fold) == as_view(s));
}

/// A committed state that a writer went on from: the same revision and parts, over a fold that reads
/// what the parts' dictionaries name, and nothing else than the writer's.
pub open spec fn underlies(v: ReadStoreView, s: StoreView) -> bool {
    &&& v.manifest == s.manifest
    &&& v.parts == s.parts
    &&& writer::extends(v.fold, s.writer.fold)
    &&& replay_laws::backed(s.parts, s.writer.fold, v.fold)
}

/// Readable bytes of one identity are the same in two folds.
pub open spec fn concurring(f: FoldView, g: FoldView) -> bool {
    forall|h: Seq<u8>, a: Loc, b: Loc|
        (#[trigger] fold::fold_read(f, a, h)) is Ok && (#[trigger] fold::fold_read(g, b, h)) is Ok
            ==> fold::fold_read(f, a, h) == fold::fold_read(g, b, h)
}

// ---------------------------------------------------------------------------------------------
// Staged records come from frames.
// ---------------------------------------------------------------------------------------------
/// A staged row is that of an unpublished frame.
proof fn lemma_row_from(m: ManifestView, frames: Seq<FrameView>, n: nat, id: Seq<char>) -> (k: int)
    requires
        n <= frames.len(),
    ensures
        part::ids_ascending(recover_laws::rows_of(m, frames, n)),
        memtable::row_at(recover_laws::rows_of(m, frames, n), id) matches Some(row) ==> 0 <= k < n
            && row == recover::frame_row(frames[k]) && !recover::redundant(m, frames[k].seq),
    decreases n,
{
    if n == 0 {
        assert(part::row_of(recover_laws::rows_of(m, frames, n), id) is None);
        0
    } else {
        let k = lemma_row_from(m, frames, (n - 1) as nat, id);
        let before = recover_laws::rows_of(m, frames, (n - 1) as nat);
        if recover::redundant(m, frames[n - 1].seq) {
            k
        } else {
            let row = recover::frame_row(frames[n - 1]);
            memtable::lemma_rows_put(before, row);
            memtable::lemma_put_lookup(before, row, id);
            if row.id == id {
                n - 1
            } else {
                k
            }
        }
    }
}

proof fn lemma_op_each(v: ReadStoreView, pending: Novel, ops: Seq<OpView>, i: int)
    requires
        recover::logged_program(v, pending, ops) is Ok,
        0 <= i < ops.len(),
    ensures
        recover::logged_op(v, pending, ops[i]) is Ok,
    decreases ops.len(),
{
    if i < ops.len() - 1 {
        lemma_op_each(v, pending, ops.drop_last(), i);
        assert(ops.drop_last()[i] == ops[i]);
    }
}

proof fn lemma_value_each(
    v: ReadStoreView,
    pending: Novel,
    contents: Seq<ContentView>,
    n: nat,
    i: int,
)
    requires
        recover::frame_values_fault(v, pending, contents, n) is None,
        0 <= i < n,
    ensures
        recover::logged_fault(v, pending, contents[i]) is None,
    decreases n,
{
    if i < n - 1 {
        lemma_value_each(v, pending, contents, (n - 1) as nat, i);
    }
}

/// Where the parts hold a piece that the window has, both places have its length.
pub open spec fn window_sized(parts: Seq<PartView>, w: WriterView) -> bool {
    forall|h: Seq<u8>|
        (#[trigger] part::find_loc(w.window, h)) matches Some(at) ==> (writer::located_in(
            parts,
            w.fold,
            h,
            parts.len(),
        ) matches Ok(Some(loc)) ==> at.raw == loc.raw)
}

/// What a log carries is located and sized.
proof fn lemma_logged_sized(s: StoreView, log: Seq<Entry>)
    requires
        recover_laws::covers(log, s),
        staged_logged(log, s),
        window_sized(s.parts, s.writer),
    ensures
        staged_laws::staged_found(s),
{
    let v = as_view(s);
    let frames = log_laws::log_applied(log);
    assert(logged_laws::over(v, s.writer.fold) == v);
    assert forall|id: Seq<char>|
        (#[trigger] engine_read::staged_record(s.mem, id)) matches Some(
            r,
        ) implies staged_laws::all_found(
        s.parts,
        s.writer,
        (engine_read::staged_record(s.mem, id)->0).contents,
    ) by {
        let r = engine_read::staged_record(s.mem, id)->0;
        let k = lemma_row_from(s.manifest, frames, frames.len(), id);
        assert(frames[k].record == r);
        recover::lemma_walk_each(v, frames, frames.len(), k);
        let at = recover::walk(v, frames, k as nat)->Ok_0;
        let novel = frames[k].novel;
        let q = recover::introduced(at.pending, novel, novel.len())->Ok_0;
        assert(recover::walk(v, frames, (k + 1) as nat)->Ok_0.pending == q);
        logged_laws::lemma_pending(v, frames, (k + 1) as nat);
        assert forall|c: int| 0 <= c < r.contents.len() implies staged_laws::found(
            s.parts,
            s.writer,
            (#[trigger] r.contents[c]).ops,
        ) by {
            let ops = r.contents[c].ops;
            lemma_value_each(v, q, r.contents, r.contents.len(), c);
            assert forall|i: int| 0 <= i < ops.len() implies match #[trigger] ops[i] {
                OpView::Piece { hash, len } => writer::located_piece(
                    s.parts,
                    s.writer.fold,
                    s.writer.window,
                    hash,
                ) matches Ok(Some(loc)) && loc.raw == len,
                OpView::Lit(_) => true,
            } by {
                if let OpView::Piece { hash, len } = ops[i] {
                    lemma_op_each(v, q, ops, i);
                    match wire::find_novel(q, hash) {
                        Some(b) => {
                            let (a, j) = choose|a: int, j: int|
                                0 <= a < k + 1 && 0 <= j < frames[a].novel.len()
                                    && #[trigger] frames[a].novel[j] == (
                                    hash,
                                    wire::find_novel(q, hash)->0,
                                );
                            assert(logged_laws::piece_stored(
                                s.parts,
                                s.writer,
                                frames[a].novel[j].0,
                                frames[a].novel[j].1,
                            ));
                        },
                        None => {
                            let loc = (writer::located_in(
                                s.parts,
                                s.writer.fold,
                                hash,
                                s.parts.len(),
                            )->Ok_0)->0;
                            assert(fold::fold_read(s.writer.fold, loc, hash)->Ok_0.len()
                                == loc.raw);
                            if part::find_loc(s.writer.window, hash) is Some {
                                let w = part::find_loc(s.writer.window, hash)->0;
                                assert(w.raw == loc.raw);
                            }
                        },
                    }
                }
            }
        }
    }
}

/// Every piece that a staged program names is located with its length, in a store whose log carries
/// what it staged, where stored bytes of one identity are the same.
pub proof fn lemma_logged_found(s: StoreView, log: Seq<Entry>)
    requires
        engine::store_ok(s),
        recover_laws::covers(log, s),
        staged_logged(log, s),
        publish_laws::agreeing(s.writer.fold),
    ensures
        staged_laws::staged_found(s),
{
    let f = s.writer.fold;
    assert forall|h: Seq<u8>|
        (#[trigger] part::find_loc(s.writer.window, h)) matches Some(at) implies (
    writer::located_in(s.parts, f, h, s.parts.len()) matches Ok(Some(loc)) ==> part::find_loc(
        s.writer.window,
        h,
    )->0.raw == loc.raw) by {
        let at = part::find_loc(s.writer.window, h)->0;
        if let Ok(Some(loc)) = writer::located_in(s.parts, f, h, s.parts.len()) {
            writer::lemma_located_in(s.parts, f, h, s.parts.len());
            writer::lemma_find_loc(s.writer.window, h);
            assert(fold::fold_read(f, at, h) == fold::fold_read(f, loc, h));
            assert(fold::fold_read(f, at, h)->Ok_0.len() == at.raw);
            assert(fold::fold_read(f, loc, h)->Ok_0.len() == loc.raw);
        }
    }
    lemma_logged_sized(s, log);
}

// ---------------------------------------------------------------------------------------------
// A crash.
// ---------------------------------------------------------------------------------------------
/// The writer that a committed fold opens as is sound.
proof fn lemma_opened_writer(f: FoldView, target: u32)
    requires
        f.blocks.len() <= u32::MAX,
        recover::punched_inside(f),
    ensures
        writer::writer_ok(recover::opened_writer(f, target)),
{
    assert forall|id: u32| #[trigger] fold::in_ranges(f.punched, id) implies id
        < f.blocks.len() by {
        let i = choose|i: int|
            0 <= i < f.punched.len() && (#[trigger] f.punched[i]).0 <= id <= f.punched[i].1;
        assert(f.punched[i].1 < f.blocks.len());
    }
}

/// Whatever one writer locates, another locates, with the same bytes.
spec fn follows(parts: Seq<PartView>, w: WriterView, after: WriterView) -> bool {
    forall|h: Seq<u8>|
        (#[trigger] writer::located_piece(parts, w.fold, w.window, h)) matches Ok(Some(loc)) ==> (
        writer::located_piece(parts, after.fold, after.window, h) matches Ok(Some(at))
            && fold::fold_read(after.fold, at, h) == fold::fold_read(w.fold, loc, h))
}

proof fn lemma_follows(
    v: ReadStoreView,
    s: StoreView,
    w: WriterView,
    frames: Seq<FrameView>,
)
    requires
        writer::writer_ok(s.writer),
        underlies(v, s),
        logged_laws::window_logged(as_view(s), s.writer, frames),
        replay_laws::restaged(v, w, frames, frames.len()),
        concurring(s.writer.fold, w.fold),
    ensures
        follows(s.parts, s.writer, w),
{
    let parts = s.parts;
    let g = s.writer.fold;
    assert forall|h: Seq<u8>|
        (#[trigger] writer::located_piece(parts, g, s.writer.window, h)) matches Ok(
            Some(loc),
        ) implies (writer::located_piece(parts, w.fold, w.window, h) matches Ok(Some(at))
        && fold::fold_read(w.fold, at, h) == fold::fold_read(
        g,
        (writer::located_piece(parts, g, s.writer.window, h)->Ok_0)->0,
        h,
    )) by {
        writer::lemma_located_reads(parts, s.writer, h);
        match writer::located_in(parts, g, h, parts.len()) {
            Ok(Some(_)) => {
                replay_laws::lemma_located_backed(parts, g, v.fold, h, parts.len());
                logged_laws::lemma_located_more(parts, v.fold, w.fold, h);
            },
            _ => {
                assert(part::find_loc(s.writer.window, h) is Some);
                assert(logged_laws::introduces(s.manifest, frames, h));
                let i = choose|i: int|
                    0 <= i < frames.len() && !recover::redundant(
                        s.manifest,
                        (#[trigger] frames[i]).seq,
                    ) && wire::find_novel(frames[i].novel, h) is Some;
                logged_laws::lemma_novel_found(frames[i].novel, h);
                let j = choose|j: int|
                    0 <= j < frames[i].novel.len() && #[trigger] frames[i].novel[j] == (
                        h,
                        wire::find_novel(frames[i].novel, h)->0,
                    );
                assert(recover::known(parts, w, frames[i].novel[j].0));
                logged_laws::lemma_none_located(parts, g, w.fold, h, parts.len());
                replay_laws::lemma_known_located(parts, w, h);
            },
        }
        writer::lemma_located_reads(parts, w, h);
    }
}

proof fn lemma_program_follows(
    parts: Seq<PartView>,
    w: WriterView,
    after: WriterView,
    ops: Seq<OpView>,
)
    requires
        follows(parts, w, after),
        engine_read::staged_program(parts, w, ops) is Ok,
    ensures
        engine_read::staged_program(parts, after, ops) == engine_read::staged_program(
            parts,
            w,
            ops,
        ),
    decreases ops.len(),
{
    if ops.len() > 0 {
        lemma_program_follows(parts, w, after, ops.drop_last());
        if let OpView::Piece { hash, len } = ops.last() {
            assert(writer::located_piece(parts, w.fold, w.window, hash) matches Ok(Some(_)));
        }
    }
}

proof fn lemma_program_backed(
    parts: Seq<PartView>,
    p: int,
    g: FoldView,
    f: FoldView,
    ops: Seq<OpView>,
)
    requires
        0 <= p < parts.len(),
        writer::extends(f, g),
        replay_laws::backed(parts, g, f),
        part::program_bytes(parts[p].pieces, g, ops) is Ok,
    ensures
        part::program_bytes(parts[p].pieces, f, ops) == part::program_bytes(
            parts[p].pieces,
            g,
            ops,
        ),
    decreases ops.len(),
{
    if ops.len() > 0 {
        lemma_program_backed(parts, p, g, f, ops.drop_last());
        if let OpView::Piece { hash, len } = ops.last() {
            let loc = part::find_loc(parts[p].pieces, hash)->0;
            assert(fold::fold_read(g, loc, hash) is Ok);
            assert(fold::fold_read(f, loc, hash) is Ok);
            assert(fold::fold_read(g, loc, hash) == fold::fold_read(f, loc, hash));
        }
    }
}

/// A committed value that reads over the writer's fold reads the same over the committed one.
pub proof fn lemma_committed_value(
    parts: Seq<PartView>,
    g: FoldView,
    f: FoldView,
    id: Seq<char>,
    name: Seq<char>,
)
    requires
        writer::extends(f, g),
        replay_laws::backed(parts, g, f),
        read::value_of(parts, g, id, name) is Ok,
    ensures
        read::value_of(parts, f, id, name) == read::value_of(parts, g, id, name),
{
    if let Some((p, row)) = read::located(parts, id) {
        read::lemma_newest(parts, id);
        if let Some(c) = part::content_named(
            parts[p as int].rows[row as int].record->0.contents,
            name,
        ) {
            lemma_program_backed(parts, p as int, g, f, c.ops);
        }
    }
}

proof fn lemma_value_more(
    parts: Seq<PartView>,
    f: FoldView,
    g: FoldView,
    id: Seq<char>,
    name: Seq<char>,
)
    requires
        writer::extends(f, g),
        read::value_of(parts, f, id, name) is Ok,
    ensures
        read::value_of(parts, g, id, name) == read::value_of(parts, f, id, name),
{
    if let Some((p, row)) = read::located(parts, id) {
        if let Some(c) = part::content_named(
            parts[p as int].rows[row as int].record->0.contents,
            name,
        ) {
            engine_laws::lemma_program_extends(parts[p as int].pieces, f, g, c.ops);
        }
    }
}

/// What a store that opened has folded again.
proof fn lemma_opened_restaged(
    c: ContainerView,
    bytes: Seq<u8>,
    o: StoreOptions,
    t: StoreView,
    cut: bool,
    frames: Seq<FrameView>,
)
    requires
        recover::open_outcome(c, bytes, o, Ok((t, cut))),
        wal::replay_from(bytes, wal::replay_start(), o.read_limits) matches Ok(st) && st.applied
            == frames,
    ensures
        open::current_view(c, o.read_limits) matches Ok(v) && {
            &&& recover::walk(v, frames, frames.len()) is Ok
            &&& replay_laws::restaged(v, t.writer, frames, frames.len())
            &&& t.manifest == v.manifest
            &&& t.parts == v.parts
        },
{
    reveal(recover::preflight_fault);
    let v = open::current_view(c, o.read_limits)->Ok_0;
    lemma_opened_writer(v.fold, o.block_target_bytes);
    replay_laws::lemma_restaged(
        v,
        recover::opened_writer(v.fold, o.block_target_bytes),
        frames,
        frames.len(),
    );
}

/// Where a reopened writer has folded the log again, what it staged is carried by the log.
proof fn lemma_restaged_logged(
    v: ReadStoreView,
    t: StoreView,
    frames: Seq<FrameView>,
)
    requires
        recover::walk(v, frames, frames.len()) is Ok,
        replay_laws::restaged(v, t.writer, frames, frames.len()),
        t.manifest == v.manifest,
        t.parts == v.parts,
        logged_laws::novel_stored(t.parts, t.writer, frames),
    ensures
        logged_laws::logged(as_view(t), t.writer, frames),
        window_sized(t.parts, t.writer),
{
    let u = as_view(t);
    let f = t.writer.fold;
    assert(logged_laws::over(u, f) == u);
    logged_laws::lemma_extends_serves(v.parts, v.fold, f);
    logged_laws::lemma_walk_order(v, frames, frames.len());
    logged_laws::lemma_walk_served(v, u, frames, frames.len());
    assert forall|h: Seq<u8>| (#[trigger] part::find_loc(t.writer.window, h)) is Some implies (
    writer::located_in(t.parts, f, h, t.parts.len()) == Ok::<Option<Loc>, FoldError>(None)
        && logged_laws::introduces(t.manifest, frames, h)) by {
        logged_laws::lemma_none_located(v.parts, v.fold, f, h, v.parts.len());
    }
}

/// A crash keeps every value. A store whose log carries what it staged, and that opens again beside
/// that log over the committed state it went on from, reads of every id and name what it read, and
/// its log carries what it has staged again, where stored bytes of one identity are the same.
pub proof fn lemma_crash_keeps_values(
    s: StoreView,
    log: Seq<Entry>,
    c: ContainerView,
    bytes: Seq<u8>,
    o: StoreOptions,
    t: StoreView,
    cut: bool,
    id: Seq<char>,
    name: Seq<char>,
)
    requires
        engine::store_ok(s),
        recover_laws::covers(log, s),
        staged_logged(log, s),
        wal::replay_from(bytes, wal::replay_start(), o.read_limits) matches Ok(st) && st.applied
            == log_laws::log_applied(log),
        open::current_view(c, o.read_limits) matches Ok(v) && underlies(v, s),
        recover::open_outcome(c, bytes, o, Ok((t, cut))),
        concurring(s.writer.fold, t.writer.fold),
    ensures
        recover_laws::covers(log, t),
        staged_logged(log, t),
        staged_laws::staged_found(t),
        engine_read::visible(t, id) == engine_read::visible(s, id),
        engine_read::value(s, id, name) is Ok ==> engine_read::value(t, id, name)
            == engine_read::value(s, id, name),
{
    let v = open::current_view(c, o.read_limits)->Ok_0;
    let frames = log_laws::log_applied(log);
    settlement_laws::lemma_open_covers(c, bytes, o, t, cut, log);
    lemma_opened_restaged(c, bytes, o, t, cut, frames);
    lemma_follows(v, s, t.writer, frames);
    assert(t.mem == s.mem);
    assert forall|i: int, j: int| 0 <= i < frames.len() && 0 <= j
        < frames[i].novel.len() implies logged_laws::piece_stored(
        t.parts,
        t.writer,
        (#[trigger] frames[i].novel[j]).0,
        frames[i].novel[j].1,
    ) by {
        assert(logged_laws::piece_stored(
            s.parts,
            s.writer,
            frames[i].novel[j].0,
            frames[i].novel[j].1,
        ));
    }
    lemma_restaged_logged(v, t, frames);
    lemma_logged_sized(t, log);
    if engine_read::value(s, id, name) is Ok {
        match memtable::row_at(s.mem, id) {
            None => {
                lemma_committed_value(s.parts, s.writer.fold, v.fold, id, name);
                lemma_value_more(s.parts, v.fold, t.writer.fold, id, name);
            },
            Some(row) => {
                if let Some(r) = row.record {
                    if let Some(k) = part::content_named(r.contents, name) {
                        lemma_program_follows(s.parts, s.writer, t.writer, k.ops);
                    }
                }
            },
        }
    }
}

/// A store opens again. Over the committed state it went on from, beside a log that replays over it
/// and that the limits admit, nothing refuses it; and the log is staged again, unless the fold has
/// no block id left.
pub proof fn lemma_reopens(
    s: StoreView,
    log: Seq<Entry>,
    c: ContainerView,
    bytes: Seq<u8>,
    o: StoreOptions,
)
    requires
        replays(log, s),
        wal::replay_from(bytes, wal::replay_start(), o.read_limits) matches Ok(st) && st.applied
            == log_laws::log_applied(log),
        open::current_view(c, o.read_limits) matches Ok(v) && {
            &&& underlies(v, s)
            &&& v.fold.blocks.len() <= u32::MAX
            &&& recover::punched_inside(v.fold)
        },
        chain::chain_fault(c, false) is None,
        o.open_verification == OpenVerification::Deep ==> artifact::artifact(c, o.read_limits) is Ok,
        admission::limits_fault(o.write_limits) is None,
    ensures
        recover::preflight_fault(c, bytes, o) is None,
        ({
            let v = open::current_view(c, o.read_limits)->Ok_0;
            let w = recover::opened_writer(v.fold, o.block_target_bytes);
            let frames = log_laws::log_applied(log);
            recover::staged_log(v, w, frames, frames.len()) matches Err(e) ==> e
                == StageError::Full
        }),
{
    let v = open::current_view(c, o.read_limits)->Ok_0;
    let frames = log_laws::log_applied(log);
    replay_laws::lemma_backed_serves(s.parts, s.writer.fold, v.fold);
    logged_laws::lemma_walk_order(as_view(s), frames, frames.len());
    logged_laws::lemma_walk_served(as_view(s), v, frames, frames.len());
    replay_laws::lemma_only_full(
        v,
        recover::opened_writer(v.fold, o.block_target_bytes),
        frames,
        frames.len(),
    );
    lemma_preflight(c, bytes, o);
}

/// What is left to judge where the committed state holds and the log was walked.
proof fn lemma_preflight(c: ContainerView, bytes: Seq<u8>, o: StoreOptions)
    requires
        wal::replay_from(bytes, wal::replay_start(), o.read_limits) is Ok,
        open::current_view(c, o.read_limits) matches Ok(v) && {
            let frames = wal::replay_from(bytes, wal::replay_start(), o.read_limits)->Ok_0.applied;
            &&& recover::walk(v, frames, frames.len()) is Ok
            &&& v.fold.blocks.len() <= u32::MAX
            &&& recover::punched_inside(v.fold)
        },
        chain::chain_fault(c, false) is None,
        o.open_verification == OpenVerification::Deep ==> artifact::artifact(c, o.read_limits) is Ok,
        admission::limits_fault(o.write_limits) is None,
    ensures
        recover::preflight_fault(c, bytes, o) is None,
{
    reveal(recover::preflight_fault);
    let v = open::current_view(c, o.read_limits)->Ok_0;
    if o.open_verification == OpenVerification::Deep {
        let commits = chain::retained_commits(c.members);
        match chain::authority_of(c.members) {
            Some(m) => {
                assert(v.manifest == m);
            },
            None => {
                assert(c.members.len() == 0);
                assert(commits.len() == 0);
            },
        }
    }
}

/// What was made durable survives. A store that wrote its whole log opens again beside it, over the
/// committed state it went on from and under the limits it had, unless the fold has no block id
/// left; and it reads of every id and name what it read, where stored bytes of one identity are
/// the same.
pub proof fn lemma_acknowledged_survives(
    s: StoreView,
    log: Seq<Entry>,
    c: ContainerView,
    file: Seq<u8>,
    o: StoreOptions,
    t: StoreView,
    cut: bool,
    id: Seq<char>,
    name: Seq<char>,
)
    requires
        engine::store_ok(s),
        carried(log, s),
        s.wal.buffered().len() == 0,
        file == log_laws::log_wire(log),
        o.read_limits == s.read_limits,
        open::current_view(c, o.read_limits) matches Ok(v) && {
            &&& underlies(v, s)
            &&& v.fold.blocks.len() <= u32::MAX
            &&& recover::punched_inside(v.fold)
        },
        chain::chain_fault(c, false) is None,
        o.open_verification == OpenVerification::Deep ==> artifact::artifact(c, o.read_limits) is Ok,
        admission::limits_fault(o.write_limits) is None,
    ensures
        file.len() == s.wal.written(),
        recover::preflight_fault(c, file, o) is None,
        forall|e: OpenStoreFault| #[trigger]
            recover::open_outcome(c, file, o, Err(e)) ==> e == OpenStoreFault::Stage(
                StageError::Full,
            ),
        recover::open_outcome(c, file, o, Ok((t, cut))) && concurring(
            s.writer.fold,
            t.writer.fold,
        ) ==> {
            &&& engine_read::visible(t, id) == engine_read::visible(s, id)
            &&& engine_read::value(s, id, name) is Ok ==> engine_read::value(t, id, name)
                == engine_read::value(s, id, name)
        },
{
    log_laws::lemma_log_replays(log, o.read_limits);
    lemma_logged_replays(log, s);
    lemma_reopens(s, log, c, file, o);
    if recover::open_outcome(c, file, o, Ok((t, cut))) && concurring(
        s.writer.fold,
        t.writer.fold,
    ) {
        lemma_crash_keeps_values(s, log, c, file, o, t, cut, id, name);
    }
}

// ---------------------------------------------------------------------------------------------
// What an open establishes.
// ---------------------------------------------------------------------------------------------
/// Every entry of the parts' dictionaries reads, unless its block was given up.
pub open spec fn parts_read(parts: Seq<PartView>, f: FoldView) -> bool {
    forall|p: int, h: Seq<u8>|
        0 <= p < parts.len() && ((#[trigger] part::find_loc(parts[p].pieces, h)) matches Some(loc)
            && !fold::in_ranges(f.punched, loc.block_id)) ==> fold::fold_read(
            f,
            part::find_loc(parts[p].pieces, h)->0,
            h,
        ) is Ok
}

/// Whatever a fold reads as a piece that frames introduce is that piece: no other stored bytes share
/// its identity.
pub open spec fn genuine_frames(f: FoldView, frames: Seq<FrameView>) -> bool {
    forall|i: int, j: int, loc: Loc|
        0 <= i < frames.len() && 0 <= j < frames[i].novel.len() ==> match #[trigger] fold::fold_read(
            f,
            loc,
            (#[trigger] frames[i].novel[j]).0,
        ) {
            Ok(x) => x == frames[i].novel[j].1,
            Err(_) => true,
        }
}

/// Every piece that a published frame introduced is in the parts.
pub open spec fn published_held(v: ReadStoreView, frames: Seq<FrameView>) -> bool {
    forall|i: int, j: int|
        0 <= i < frames.len() && recover::redundant(v.manifest, frames[i].seq) && 0 <= j
            < frames[i].novel.len() ==> writer::located_in(
            v.parts,
            v.fold,
            (#[trigger] frames[i].novel[j]).0,
            v.parts.len(),
        ) != Ok::<Option<Loc>, FoldError>(None)
}

proof fn lemma_dictionaries_each(parts: Seq<PartView>, f: FoldView, n: nat, p: int)
    requires
        artifact::dictionaries_fault(parts, f, n) is None,
        0 <= p < n,
    ensures
        audit::dictionary_fault(f, parts[p].pieces, parts[p].pieces.len()) is None,
    decreases n,
{
    if p < n - 1 {
        lemma_dictionaries_each(parts, f, (n - 1) as nat, p);
    }
}

/// In a container that verifies whole, every entry of the parts' dictionaries reads.
pub proof fn lemma_verified_parts_read(c: ContainerView, limits: ReadLimits)
    requires
        artifact::artifact(c, limits) is Ok,
    ensures
        open::current_view(c, limits) matches Ok(v) && parts_read(v.parts, v.fold),
{
    let v = open::current_view(c, limits)->Ok_0;
    assert(artifact::dictionaries_fault(v.parts, v.fold, v.parts.len()) is None);
    assert forall|p: int, h: Seq<u8>|
        0 <= p < v.parts.len() && ((#[trigger] part::find_loc(v.parts[p].pieces, h)) matches Some(
            loc,
        ) && !fold::in_ranges(v.fold.punched, loc.block_id)) implies fold::fold_read(
        v.fold,
        part::find_loc(v.parts[p].pieces, h)->0,
        h,
    ) is Ok by {
        let pieces = v.parts[p].pieces;
        let loc = part::find_loc(pieces, h)->0;
        lemma_dictionaries_each(v.parts, v.fold, v.parts.len(), p);
        writer::lemma_find_loc(pieces, h);
        let i = choose|i: int| 0 <= i < pieces.len() && #[trigger] pieces[i] == (h, loc);
        audit::lemma_dictionary_each(v.fold, pieces, pieces.len(), i);
    }
}

proof fn lemma_read_located(parts: Seq<PartView>, f: FoldView, h: Seq<u8>, n: nat)
    requires
        n <= parts.len(),
        parts_read(parts, f),
    ensures
        writer::located_in(parts, f, h, n) is Ok,
    decreases n,
{
    if n > 0 {
        lemma_read_located(parts, f, h, (n - 1) as nat);
        assert(part::find_loc(parts[n - 1].pieces, h) == part::find_loc(parts[n - 1].pieces, h));
    }
}

/// A committed state whose dictionaries read underlies the writer that opens over it.
pub proof fn lemma_open_underlies(
    c: ContainerView,
    bytes: Seq<u8>,
    o: StoreOptions,
    t: StoreView,
    cut: bool,
)
    requires
        recover::open_outcome(c, bytes, o, Ok((t, cut))),
        open::current_view(c, o.read_limits) matches Ok(v) && parts_read(v.parts, v.fold),
    ensures
        underlies(open::current_view(c, o.read_limits)->Ok_0, t),
{
    let v = open::current_view(c, o.read_limits)->Ok_0;
    let frames = wal::replay_from(bytes, wal::replay_start(), o.read_limits)->Ok_0.applied;
    lemma_opened_replayed(c, bytes, o, t, cut);
    lemma_opened_restaged(c, bytes, o, t, cut, frames);
    assert forall|p: int, h: Seq<u8>|
        0 <= p < t.parts.len() && ((#[trigger] part::find_loc(t.parts[p].pieces, h)) matches Some(
            loc,
        ) && fold::fold_read(t.writer.fold, loc, h) is Ok) implies fold::fold_read(
        v.fold,
        part::find_loc(t.parts[p].pieces, h)->0,
        h,
    ) is Ok by {
        assert(part::find_loc(v.parts[p].pieces, h) is Some);
    }
}

/// A committed state whose dictionaries read goes on underlying a writer that folds more.
pub proof fn lemma_underlies_more(v: ReadStoreView, s: StoreView, t: StoreView)
    requires
        underlies(v, s),
        parts_read(v.parts, v.fold),
        t.parts == s.parts,
        t.manifest == s.manifest,
        writer::extends(s.writer.fold, t.writer.fold),
    ensures
        underlies(v, t),
{
    assert forall|loc: Loc, h: Seq<u8>|
        fold::fold_read(v.fold, loc, h) is Ok implies #[trigger] fold::fold_read(
        t.writer.fold,
        loc,
        h,
    ) == fold::fold_read(v.fold, loc, h) by {
        assert(fold::fold_read(s.writer.fold, loc, h) == fold::fold_read(v.fold, loc, h));
    }
    assert forall|p: int, h: Seq<u8>|
        0 <= p < t.parts.len() && ((#[trigger] part::find_loc(t.parts[p].pieces, h)) matches Some(
            loc,
        ) && fold::fold_read(t.writer.fold, loc, h) is Ok) implies fold::fold_read(
        v.fold,
        part::find_loc(t.parts[p].pieces, h)->0,
        h,
    ) is Ok by {
        assert(part::find_loc(v.parts[p].pieces, h) is Some);
    }
}

/// A committed state over the fold that a writer handed over underlies the writer.
pub proof fn lemma_handed_over_underlies(v: ReadStoreView, s: StoreView)
    requires
        v.manifest == s.manifest,
        v.parts == s.parts,
        roundtrip_laws::same_content(s.writer.fold, v.fold),
    ensures
        underlies(v, s),
{
    roundtrip_laws::lemma_same_content(s.writer.fold, v.fold);
    assert forall|loc: Loc, h: Seq<u8>|
        fold::fold_read(v.fold, loc, h) is Ok implies #[trigger] fold::fold_read(
        s.writer.fold,
        loc,
        h,
    ) == fold::fold_read(v.fold, loc, h) by {}
}

proof fn lemma_opened_replayed(
    c: ContainerView,
    bytes: Seq<u8>,
    o: StoreOptions,
    t: StoreView,
    cut: bool,
)
    requires
        recover::open_outcome(c, bytes, o, Ok((t, cut))),
    ensures
        wal::replay_from(bytes, wal::replay_start(), o.read_limits) is Ok,
{
    reveal(recover::preflight_fault);
}

/// A store that opens beside a log has everything it staged carried by that log, and located. The
/// committed dictionaries read, no stored bytes share an identity with a logged piece, and the parts
/// hold what published frames introduced.
pub proof fn lemma_open_carried(
    c: ContainerView,
    bytes: Seq<u8>,
    o: StoreOptions,
    t: StoreView,
    cut: bool,
    log: Seq<Entry>,
)
    requires
        recover::open_outcome(c, bytes, o, Ok((t, cut))),
        wal::replay_from(bytes, wal::replay_start(), o.read_limits) matches Ok(st) && st.applied
            == log_laws::log_applied(log),
        open::current_view(c, o.read_limits) matches Ok(v) && {
            &&& parts_read(v.parts, v.fold)
            &&& genuine_frames(v.fold, log_laws::log_applied(log))
            &&& published_held(v, log_laws::log_applied(log))
        },
    ensures
        recover_laws::covers(log, t),
        staged_logged(log, t),
        staged_laws::staged_found(t),
        whole(log, bytes, o.read_limits) ==> carried(log, t),
{
    let v = open::current_view(c, o.read_limits)->Ok_0;
    let frames = log_laws::log_applied(log);
    let w = t.writer;
    settlement_laws::lemma_open_covers(c, bytes, o, t, cut, log);
    lemma_opened_restaged(c, bytes, o, t, cut, frames);
    assert forall|i: int, j: int| 0 <= i < frames.len() && 0 <= j
        < frames[i].novel.len() implies logged_laws::piece_stored(
        t.parts,
        w,
        (#[trigger] frames[i].novel[j]).0,
        frames[i].novel[j].1,
    ) by {
        let h = frames[i].novel[j].0;
        lemma_read_located(v.parts, v.fold, h, v.parts.len());
        match writer::located_in(v.parts, v.fold, h, v.parts.len()) {
            Ok(Some(loc)) => {
                assert(part::find_loc(w.window, h) is None);
                logged_laws::lemma_located_more(v.parts, v.fold, w.fold, h);
                writer::lemma_located_in(v.parts, v.fold, h, v.parts.len());
                assert(fold::fold_read(v.fold, loc, frames[i].novel[j].0)->Ok_0
                    == frames[i].novel[j].1);
                assert(fold::fold_read(w.fold, loc, h) == fold::fold_read(v.fold, loc, h));
            },
            _ => {
                assert(!recover::redundant(v.manifest, frames[i].seq));
            },
        }
    }
    lemma_restaged_logged(v, t, frames);
    lemma_logged_sized(t, log);
    if whole(log, bytes, o.read_limits) {
        lemma_opened_log(c, bytes, o, t, cut, log);
    }
}

/// The bytes of a log that nothing was torn off or given up of, under limits that admit it.
pub open spec fn whole(log: Seq<Entry>, bytes: Seq<u8>, limits: ReadLimits) -> bool {
    &&& bytes == log_laws::log_wire(log)
    &&& log_laws::log_ok(log, limits)
    &&& log_laws::log_frames(log) <= limits.max_wal_frames
    &&& bytes.len() <= u64::MAX
    &&& log.len() == 0 || !(log.last() is Abandoned)
}

proof fn lemma_opened_log(
    c: ContainerView,
    bytes: Seq<u8>,
    o: StoreOptions,
    t: StoreView,
    cut: bool,
    log: Seq<Entry>,
)
    requires
        recover::open_outcome(c, bytes, o, Ok((t, cut))),
        whole(log, bytes, o.read_limits),
    ensures
        wired(log, t),
        admitted(log, t),
{
    reveal(recover::preflight_fault);
    log_laws::lemma_log_replays(log, o.read_limits);
    assert(t.wal.buffered() =~= log_laws::log_wire(log).skip(t.wal.written() as int));
}

// ---------------------------------------------------------------------------------------------
// A crash behind the flip of a flush.
// ---------------------------------------------------------------------------------------------
/// A crash at any point of a flush keeps every value. The log is the one before the flip; the
/// container is the one before the flip or the one after it.
pub proof fn lemma_crash_in_flush_keeps_values(
    s: StoreView,
    log: Seq<Entry>,
    p: PlanView,
    e: EncodedPart,
    m: ManifestView,
    c: ContainerView,
    bytes: Seq<u8>,
    o: StoreOptions,
    t: StoreView,
    cut: bool,
    id: Seq<char>,
    name: Seq<char>,
)
    requires
        engine::store_ok(s),
        recover_laws::covers(log, s),
        staged_logged(log, s),
        publish_laws::agreeing(s.writer.fold),
        publish::flush_plan(s) == Ok::<PlanView, PublishError>(p),
        m.next_seq == p.seq_hi,
        m.commit != 0,
        wal::replay_from(bytes, wal::replay_start(), o.read_limits) matches Ok(st) && st.applied
            == log_laws::log_applied(log),
        open::current_view(c, o.read_limits) matches Ok(v) && (underlies(v, s) || underlies(
            v,
            publish::published_store(s, p, e, m, s.wal),
        )),
        recover::open_outcome(c, bytes, o, Ok((t, cut))),
        concurring(s.writer.fold, t.writer.fold),
    ensures
        engine_read::visible(t, id) == engine_read::visible(s, id),
        engine_read::value(s, id, name) is Ok ==> engine_read::value(t, id, name)
            == engine_read::value(s, id, name),
{
    let v = open::current_view(c, o.read_limits)->Ok_0;
    let u = publish::published_store(s, p, e, m, s.wal);
    let frames = log_laws::log_applied(log);
    settlement_laws::lemma_crash_in_flush(s, log, p, e, m, c, bytes, o, t, cut, id);
    if underlies(v, s) {
        lemma_crash_keeps_values(s, log, c, bytes, o, t, cut, id, name);
    } else if engine_read::value(s, id, name) is Ok {
        lemma_logged_found(s, log);
        staged_laws::lemma_flush_keeps_values(s, p, e, m, s.wal, id, name);
        settlement_laws::lemma_open_published(s, log, p, e, m, c, bytes, o, t, cut);
        lemma_opened_restaged(c, bytes, o, t, cut, frames);
        assert(memtable::row_at(u.mem, id) is None);
        assert(memtable::row_at(t.mem, id) is None);
        lemma_committed_value(u.parts, u.writer.fold, v.fold, id, name);
        lemma_value_more(u.parts, v.fold, t.writer.fold, id, name);
    }
}

} // verus!
