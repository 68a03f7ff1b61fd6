//! Reading through a writer: staged rows first, then the committed parts.

use crate::bytes;
use crate::fold;
use crate::memtable;
use crate::part;
use crate::part::{Part, PartView, ReadError, Row, RowView};
use crate::store::engine;
use crate::store::engine::{Store, StoreView};
use crate::store::project;
use crate::store::project::ProjectError;
use crate::store::read;
use crate::store::read_store;
use crate::store::read_store::InvertedRange;
use crate::store::scan;
use crate::store::scan::{
    PartPredicate, RowBatch, RowOrigin, RowRef, RowRefView, RowScan, ScanPhysicalScope, ScanView,
};
use crate::store::scan_laws;
use crate::store::writer;
use crate::store::writer::WriterView;
use crate::types;
use crate::types::{
    Content, ContentHash, ContentOp, ContentView, OpView, Record, RecordView, BODY_CONTENT,
};
use crate::hash;
use vstd::prelude::*;

verus! {

/// The record of an id: what the memtable says, else what the parts say.
pub open spec fn visible(s: StoreView, id: Seq<char>) -> Option<RecordView> {
    match memtable::row_at(s.mem, id) {
        Some(row) => row.record,
        None => read::current(s.parts, id),
    }
}

/// The bytes of one step of a staged program.
pub open spec fn staged_op(parts: Seq<PartView>, w: WriterView, op: OpView) -> Result<
    Seq<u8>,
    ReadError,
> {
    match op {
        OpView::Lit(b) => Ok(b),
        OpView::Piece { hash, .. } => match writer::located_piece(parts, w.fold, w.window, hash) {
            Err(error) => Err(ReadError::Fold { error }),
            Ok(None) => Err(ReadError::AbsentPiece),
            Ok(Some(loc)) => match fold::fold_read(w.fold, loc, hash) {
                Ok(b) => Ok(b),
                Err(error) => Err(ReadError::Fold { error }),
            },
        },
    }
}

/// The bytes of a staged program, or the first fault.
pub open spec fn staged_program(parts: Seq<PartView>, w: WriterView, ops: Seq<OpView>) -> Result<
    Seq<u8>,
    ReadError,
>
    decreases ops.len(),
{
    if ops.len() == 0 {
        Ok(Seq::empty())
    } else {
        match staged_program(parts, w, ops.drop_last()) {
            Err(e) => Err(e),
            Ok(front) => match staged_op(parts, w, ops.last()) {
                Err(e) => Err(e),
                Ok(b) => Ok(front + b),
            },
        }
    }
}

/// The value of a staged content, checked against its identity where it has one.
pub open spec fn staged_value(parts: Seq<PartView>, w: WriterView, c: ContentView) -> Result<
    Seq<u8>,
    ReadError,
> {
    match staged_program(parts, w, c.ops) {
        Err(e) => Err(e),
        Ok(b) => match c.identity {
            Some(h) => if hash::blake3_digest(b) != h {
                Err(ReadError::Identity)
            } else {
                Ok(b)
            },
            None => Ok(b),
        },
    }
}

/// The value of an id's content.
pub open spec fn value(s: StoreView, id: Seq<char>, name: Seq<char>) -> Result<
    Option<Seq<u8>>,
    ReadError,
> {
    match memtable::row_at(s.mem, id) {
        None => read::value_of(s.parts, s.writer.fold, id, name),
        Some(row) => match row.record {
            None => Ok(None),
            Some(r) => match part::content_named(r.contents, name) {
                None => Ok(None),
                Some(c) => match staged_value(s.parts, s.writer, c) {
                    Ok(b) => Ok(Some(b)),
                    Err(e) => Err(e),
                },
            },
        },
    }
}

proof fn lemma_staged_prefix(parts: Seq<PartView>, w: WriterView, ops: Seq<OpView>, k: int)
    requires
        0 <= k <= ops.len(),
        staged_program(parts, w, ops.take(k)) is Err,
    ensures
        staged_program(parts, w, ops) == staged_program(parts, w, ops.take(k)),
    decreases ops.len(),
{
    if k < ops.len() {
        assert(ops.drop_last().take(k) =~= ops.take(k));
        lemma_staged_prefix(parts, w, ops.drop_last(), k);
    } else {
        assert(ops.take(k) =~= ops);
    }
}

// ---------------------------------------------------------------------------------------------
// The overlay a scan gets.
// ---------------------------------------------------------------------------------------------
/// The entries of the first `n` staged rows in a range.
pub open spec fn entries(
    mem: Seq<RowView>,
    from: Option<Seq<char>>,
    to: Option<Seq<char>>,
    n: nat,
) -> Seq<(Seq<char>, bool)>
    decreases n,
{
    if n == 0 {
        Seq::empty()
    } else {
        let before = entries(mem, from, to, (n - 1) as nat);
        if part::in_range(mem[n - 1].id, from, to) {
            before.push((mem[n - 1].id, mem[n - 1].record is Some))
        } else {
            before
        }
    }
}

/// The overlay of a scan: the staged rows of its range, in its order.
pub open spec fn overlay_of(mem: Seq<RowView>, req: ScanView) -> Seq<(Seq<char>, bool)> {
    let up = entries(mem, req.from, req.to, mem.len());
    if req.reverse {
        up.reverse()
    } else {
        up
    }
}

/// The entries are the rows in the range, in order, each once.
pub proof fn lemma_entries(
    mem: Seq<RowView>,
    from: Option<Seq<char>>,
    to: Option<Seq<char>>,
    n: nat,
)
    requires
        part::ids_ascending(mem),
        n <= mem.len(),
    ensures
        entries(mem, from, to, n).len() <= n,
        forall|i: int, j: int|
            0 <= i < j < entries(mem, from, to, n).len() ==> bytes::name_lt(
                (#[trigger] entries(mem, from, to, n)[i]).0,
                (#[trigger] entries(mem, from, to, n)[j]).0,
            ),
        forall|i: int|
            0 <= i < entries(mem, from, to, n).len() ==> {
                let e = #[trigger] entries(mem, from, to, n)[i];
                &&& part::in_range(e.0, from, to)
                &&& exists|k: int|
                    0 <= k < n && (#[trigger] mem[k]).id == e.0 && (mem[k].record is Some) == e.1
            },
    decreases n,
{
    if n > 0 {
        lemma_entries(mem, from, to, (n - 1) as nat);
        let before = entries(mem, from, to, (n - 1) as nat);
        let out = entries(mem, from, to, n);
        let last = mem[n - 1];
        if part::in_range(last.id, from, to) {
            assert(out[before.len() as int] == (last.id, last.record is Some));
            assert forall|i: int, j: int| 0 <= i < j < out.len() implies bytes::name_lt(
                (#[trigger] out[i]).0,
                (#[trigger] out[j]).0,
            ) by {
                assert(out[i] == before[i]);
                if j < before.len() {
                    assert(out[j] == before[j]);
                } else {
                    let k = choose|k: int|
                        0 <= k < n - 1 && (#[trigger] mem[k]).id == before[i].0 && (
                        mem[k].record is Some) == before[i].1;
                    assert(bytes::name_lt(mem[k].id, mem[n - 1].id));
                }
            }
            assert forall|i: int| 0 <= i < out.len() implies ({
                let e = #[trigger] out[i];
                &&& part::in_range(e.0, from, to)
                &&& exists|k: int|
                    0 <= k < n && (#[trigger] mem[k]).id == e.0 && (mem[k].record is Some) == e.1
            }) by {
                if i < before.len() {
                    assert(out[i] == before[i]);
                    let k = choose|k: int|
                        0 <= k < n - 1 && (#[trigger] mem[k]).id == before[i].0 && (
                        mem[k].record is Some) == before[i].1;
                    assert(mem[k].id == out[i].0);
                } else {
                    assert(mem[n - 1].id == out[i].0);
                }
            }
        }
    }
}

/// A row in the range has an entry.
pub proof fn lemma_entry_of(
    mem: Seq<RowView>,
    from: Option<Seq<char>>,
    to: Option<Seq<char>>,
    n: nat,
    k: int,
)
    requires
        0 <= k < n <= mem.len(),
        part::in_range(mem[k].id, from, to),
    ensures
        exists|i: int|
            0 <= i < entries(mem, from, to, n).len() && #[trigger] entries(mem, from, to, n)[i] == (
                mem[k].id,
                mem[k].record is Some,
            ),
    decreases n,
{
    let out = entries(mem, from, to, n);
    if k == n - 1 {
        assert(out[out.len() - 1] == (mem[k].id, mem[k].record is Some));
    } else {
        lemma_entry_of(mem, from, to, (n - 1) as nat, k);
        let before = entries(mem, from, to, (n - 1) as nat);
        let i = choose|i: int|
            0 <= i < before.len() && #[trigger] before[i] == (mem[k].id, mem[k].record is Some);
        assert(out[i] == before[i]);
    }
}

/// The overlay suits its scan.
pub proof fn lemma_overlay(mem: Seq<RowView>, req: ScanView)
    requires
        part::ids_ascending(mem),
    ensures
        scan::overlay_ok(overlay_of(mem, req), req),
        overlay_of(mem, req).len() <= mem.len(),
{
    let up = entries(mem, req.from, req.to, mem.len());
    lemma_entries(mem, req.from, req.to, mem.len());
    let o = overlay_of(mem, req);
    if req.reverse {
        assert forall|i: int, j: int| 0 <= i < j < o.len() implies scan::precedes(
            true,
            (#[trigger] o[i]).0,
            (#[trigger] o[j]).0,
        ) by {
            assert(o[i] == up[up.len() - 1 - i] && o[j] == up[up.len() - 1 - j]);
        }
        assert forall|i: int| 0 <= i < o.len() implies part::in_range(
            (#[trigger] o[i]).0,
            req.from,
            req.to,
        ) by {
            assert(o[i] == up[up.len() - 1 - i]);
        }
    }
}

/// The law of a writer's scan: an id of its range is live in the scan exactly when the store shows
/// a record for it.
pub proof fn lemma_scan_sees_visible(s: StoreView, req: ScanView, id: Seq<char>)
    requires
        engine::store_ok(s),
        part::in_range(id, req.from, req.to),
    ensures
        scan_laws::live(s.parts, overlay_of(s.mem, req), id) <==> visible(s, id) is Some,
        scan::in_overlay(overlay_of(s.mem, req), id) <==> memtable::row_at(s.mem, id) is Some,
{
    let up = entries(s.mem, req.from, req.to, s.mem.len());
    let o = overlay_of(s.mem, req);
    lemma_entries(s.mem, req.from, req.to, s.mem.len());
    match part::row_of(s.mem, id) {
        Some(k) => {
            assert(s.mem[k as int].id == id);
            lemma_entry_of(s.mem, req.from, req.to, s.mem.len(), k as int);
            let i = choose|i: int|
                0 <= i < up.len() && #[trigger] up[i] == (
                    s.mem[k as int].id,
                    s.mem[k as int].record is Some,
                );
            let at = if req.reverse {
                up.len() - 1 - i
            } else {
                i
            };
            assert(o[at] == up[i]);
            assert(scan::in_overlay(o, id));
            if scan::overlay_live(o, id) {
                let m = choose|m: int| 0 <= m < o.len() && (#[trigger] o[m]).0 == id && o[m].1;
                let u = if req.reverse {
                    up.len() - 1 - m
                } else {
                    m
                };
                assert(up[u] == o[m]);
                let q = choose|q: int|
                    0 <= q < s.mem.len() && (#[trigger] s.mem[q]).id == up[u].0 && (
                    s.mem[q].record is Some) == up[u].1;
                part::lemma_row_of(s.mem, id, q);
            }
        },
        None => {
            if scan::in_overlay(o, id) {
                let m = choose|m: int| 0 <= m < o.len() && (#[trigger] o[m]).0 == id;
                let u = if req.reverse {
                    up.len() - 1 - m
                } else {
                    m
                };
                assert(up[u] == o[m]);
                let q = choose|q: int|
                    0 <= q < s.mem.len() && (#[trigger] s.mem[q]).id == up[u].0 && (
                    s.mem[q].record is Some) == up[u].1;
                part::lemma_row_of(s.mem, id, q);
            }
        },
    }
}

fn id_in_range(id: &str, from: Option<&str>, to: Option<&str>) -> (r: bool)
    ensures
        r == part::in_range(id@, part::bound_view(from), part::bound_view(to)),
{
    if let Some(f) = from {
        if bytes::str_lt(id, f) {
            return false;
        }
    }
    if let Some(t) = to {
        if !bytes::str_lt(id, t) {
            return false;
        }
    }
    true
}

fn overlay<'a>(mem: &'a Vec<Row>, request: &RowScan<'_>) -> (r: Vec<(&'a str, bool)>)
    ensures
        scan::overlay_view(r@) == overlay_of(part::rows_view(mem@), request@),
{
    let ghost all = part::rows_view(mem@);
    let ghost req = request@;
    let mut up: Vec<(&'a str, bool)> = Vec::new();
    let mut i: usize = 0;
    assert(scan::overlay_view(up@) =~= Seq::<(Seq<char>, bool)>::empty());
    while i < mem.len()
        invariant
            all == part::rows_view(mem@),
            req == request@,
            i <= mem@.len(),
            scan::overlay_view(up@) == entries(all, req.from, req.to, i as nat),
        decreases mem.len() - i,
    {
        let row = &mem[i];
        assert(all[i as int] == row@);
        if id_in_range(row.id.as_str(), request.from, request.to) {
            let ghost before = up@;
            let live = row.record.is_some();
            up.push((row.id.as_str(), live));
            assert(scan::overlay_view(up@) =~= scan::overlay_view(before).push((row.id@, live)));
        }
        i = i + 1;
    }
    if !request.reverse {
        return up;
    }
    let ghost whole = up@;
    let mut down: Vec<(&'a str, bool)> = Vec::new();
    while up.len() > 0
        invariant
            up@.len() <= whole.len(),
            up@ == whole.take(up@.len() as int),
            down@ == whole.skip(up@.len() as int).reverse(),
        decreases up.len(),
    {
        let ghost n = up@.len();
        let last = up.pop().unwrap();
        down.push(last);
        proof {
            assert(up@ =~= whole.take(n - 1));
            assert(down@ =~= whole.skip(n - 1).reverse());
        }
    }
    proof {
        assert(whole.skip(0) =~= whole);
        assert(scan::overlay_view(down@) =~= scan::overlay_view(whole).reverse());
    }
    down
}

// ---------------------------------------------------------------------------------------------
// Projection.
// ---------------------------------------------------------------------------------------------
/// Why resolved rows of a writer's view are not projected.
#[derive(Clone, Copy, Debug, PartialEq, Eq, Structural)]
pub enum StoreProjectError {
    /// A row resolved to the memtable is not live there.
    NotLive { index: usize },
    /// A committed row does not belong to the parts.
    Committed { error: ProjectError },
}

/// The committed rows among the first `n`, in order.
pub open spec fn committed_refs(refs: Seq<RowRefView>, n: nat) -> Seq<RowRefView>
    decreases n,
{
    if n == 0 {
        Seq::empty()
    } else {
        let before = committed_refs(refs, (n - 1) as nat);
        if refs[n - 1].origin == RowOrigin::Memtable {
            before
        } else {
            before.push(refs[n - 1])
        }
    }
}

/// The staged record of an id.
pub open spec fn staged_record(mem: Seq<RowView>, id: Seq<char>) -> Option<RecordView> {
    match memtable::row_at(mem, id) {
        Some(row) => row.record,
        None => None,
    }
}

/// The first of `n` rows that claims a staged record and has none.
pub open spec fn not_live(mem: Seq<RowView>, refs: Seq<RowRefView>, n: nat) -> Option<usize>
    decreases n,
{
    if n == 0 {
        None
    } else {
        match not_live(mem, refs, (n - 1) as nat) {
            Some(i) => Some(i),
            None => if refs[n - 1].origin == RowOrigin::Memtable && staged_record(
                mem,
                refs[n - 1].id,
            ) is None {
                Some((n - 1) as usize)
            } else {
                None
            },
        }
    }
}

/// Why resolved rows are not projected.
pub open spec fn store_projection_fault(s: StoreView, refs: Seq<RowRefView>) -> Option<
    StoreProjectError,
> {
    match not_live(s.mem, refs, refs.len()) {
        Some(index) => Some(StoreProjectError::NotLive { index }),
        None => match project::projection_fault(s.parts, committed_refs(refs, refs.len())) {
            Some(error) => Some(StoreProjectError::Committed { error }),
            None => None,
        },
    }
}

/// One resolved row with the wanted fields alone.
pub open spec fn store_projected(
    s: StoreView,
    r: RowRefView,
    attrs: Seq<Seq<char>>,
    contents: Seq<Seq<char>>,
) -> RecordView {
    if r.origin == RowOrigin::Memtable {
        let rec = staged_record(s.mem, r.id)->0;
        RecordView {
            id: rec.id,
            contents: project::contents_selected(rec.contents, contents),
            attrs: project::attrs_selected(rec.attrs, attrs),
        }
    } else {
        project::projected(s.parts, r, attrs, contents)
    }
}

proof fn lemma_not_live_prefix(mem: Seq<RowView>, refs: Seq<RowRefView>, k: nat, n: nat)
    requires
        k <= n,
        not_live(mem, refs, k) is Some,
    ensures
        not_live(mem, refs, n) == not_live(mem, refs, k),
    decreases n,
{
    if k < n {
        lemma_not_live_prefix(mem, refs, k, (n - 1) as nat);
    }
}

proof fn lemma_live_each(mem: Seq<RowView>, refs: Seq<RowRefView>, n: nat, i: int)
    requires
        not_live(mem, refs, n) is None,
        0 <= i < n,
        refs[i].origin == RowOrigin::Memtable,
    ensures
        staged_record(mem, refs[i].id) is Some,
    decreases n,
{
    if i < n - 1 {
        lemma_live_each(mem, refs, (n - 1) as nat, i);
    }
}

proof fn lemma_committed_at(refs: Seq<RowRefView>, i: int, n: nat)
    requires
        0 <= i < n,
        refs[i].origin != RowOrigin::Memtable,
    ensures
        committed_refs(refs, i as nat).len() < committed_refs(refs, n).len(),
        committed_refs(refs, n)[committed_refs(refs, i as nat).len() as int] == refs[i],
    decreases n,
{
    if i < n - 1 {
        lemma_committed_at(refs, i, (n - 1) as nat);
    }
}

impl Store {
    /// The record of an id: the memtable is newer than every part.
    pub fn get(&self, id: &str) -> (r: Option<Record>)
        requires
            engine::store_ok(self@),
        ensures
            part::record_view(r) == visible(self@, id@),
    {
        match memtable::find_row(&self.mem, id) {
            Some(i) => {
                assert(self@.mem[i as int] == self.mem@[i as int]@);
                match &self.mem[i].record {
                    Some(record) => Some(record.clone()),
                    None => None,
                }
            },
            None => read::get(&self.parts, id),
        }
    }

    fn rebuild_projected_content(&self, content: &Content) -> (r: Result<Vec<u8>, ReadError>)
        ensures
            staged_value(self@.parts, self@.writer, content@) == (match r {
                Ok(b) => Ok::<Seq<u8>, ReadError>(b@),
                Err(e) => Err(e),
            }),
    {
        let ghost all = types::ops_view(content.ops@);
        let ghost ps = self@.parts;
        let ghost w = self@.writer;
        let mut out: Vec<u8> = Vec::new();
        let mut i: usize = 0;
        assert(all.take(0) =~= Seq::<OpView>::empty());
        while i < content.ops.len()
            invariant
                all == types::ops_view(content.ops@),
                ps == self@.parts,
                w == self@.writer,
                i <= content.ops@.len(),
                staged_program(ps, w, all.take(i as int)) == Ok::<Seq<u8>, ReadError>(out@),
            decreases content.ops.len() - i,
        {
            let ghost next = all.take(i + 1);
            proof {
                assert(next.drop_last() =~= all.take(i as int));
                assert(next.last() == content.ops@[i as int]@);
            }
            match &content.ops[i] {
                ContentOp::Lit(b) => {
                    bytes::append_bytes(&mut out, b.as_slice());
                },
                ContentOp::Piece { hash, len: _ } => {
                    let found = writer::locate_verified_piece(
                        &self.parts,
                        &self.writer.fold,
                        &self.writer.window,
                        hash,
                    );
                    let loc = match found {
                        Ok(Some(loc)) => loc,
                        Ok(None) => {
                            proof {
                                lemma_staged_prefix(ps, w, all, i + 1);
                            }
                            return Err(ReadError::AbsentPiece);
                        },
                        Err(error) => {
                            proof {
                                lemma_staged_prefix(ps, w, all, i + 1);
                            }
                            return Err(ReadError::Fold { error });
                        },
                    };
                    match self.writer.fold.read_verified(loc, hash) {
                        Ok(b) => {
                            bytes::append_bytes(&mut out, b);
                        },
                        Err(error) => {
                            proof {
                                lemma_staged_prefix(ps, w, all, i + 1);
                            }
                            return Err(ReadError::Fold { error });
                        },
                    }
                },
            }
            i = i + 1;
        }
        assert(all.take(i as int) =~= all);
        if let Some(expected) = &content.identity {
            let got = ContentHash::of(out.as_slice());
            if !got.same(expected) {
                return Err(ReadError::Identity);
            }
        }
        Ok(out)
    }

    /// Byte-exact named content of an id, without its siblings.
    pub fn reconstruct_content(&self, id: &str, name: &str) -> (r: Result<
        Option<Vec<u8>>,
        ReadError,
    >)
        requires
            engine::store_ok(self@),
        ensures
            value(self@, id@, name@) == (match r {
                Ok(Some(b)) => Ok::<Option<Seq<u8>>, ReadError>(Some(b@)),
                Ok(None) => Ok(None),
                Err(e) => Err(e),
            }),
    {
        match memtable::find_row(&self.mem, id) {
            None => read::reconstruct_content(&self.parts, &self.writer.fold, id, name),
            Some(i) => {
                assert(self@.mem[i as int] == self.mem@[i as int]@);
                match &self.mem[i].record {
                    None => Ok(None),
                    Some(record) => match part::find_content(&record.contents, name) {
                        None => Ok(None),
                        Some(k) => match self.rebuild_projected_content(&record.contents[k]) {
                            Ok(b) => Ok(Some(b)),
                            Err(e) => Err(e),
                        },
                    },
                }
            },
        }
    }

    /// Byte-exact content of an id under the conventional name.
    pub fn reconstruct(&self, id: &str) -> (r: Result<Option<Vec<u8>>, ReadError>)
        requires
            engine::store_ok(self@),
        ensures
            value(self@, id@, BODY_CONTENT@) == (match r {
                Ok(Some(b)) => Ok::<Option<Seq<u8>>, ReadError>(Some(b@)),
                Ok(None) => Ok(None),
                Err(e) => Err(e),
            }),
    {
        self.reconstruct_content(id, BODY_CONTENT)
    }

    /// Every row and staged entry can be counted.
    pub open spec fn countable(&self) -> bool {
        read::rows_total(self@.parts, 0) + self@.mem.len() <= usize::MAX
    }

    /// Whether every row and staged entry can be counted, which a scan depends on.
    pub fn is_countable(&self) -> (r: bool)
        ensures
            r == self.countable(),
    {
        read::rows_fit(&self.parts, self.mem.len())
    }

    /// One bounded page of resolved rows, staged rows included.
    pub fn scan(&self, request: RowScan<'_>) -> (r: Result<RowBatch, InvertedRange>)
        requires
            engine::store_ok(self@),
            self.countable(),
        ensures
            match r {
                Ok(b) => !read_store::inverted(request@.from, request@.to) && b@ == scan::scanned(
                    self@.parts,
                    overlay_of(self@.mem, request@),
                    request@,
                ),
                Err(_) => read_store::inverted(request@.from, request@.to),
            },
    {
        if read_store::check_range(request.from, request.to).is_err() {
            return Err(InvertedRange);
        }
        let staged = overlay(&self.mem, &request);
        proof {
            lemma_overlay(self@.mem, request@);
            assert(scan::overlay_view(staged@).len() == staged@.len());
        }
        Ok(scan::scan_rows(&self.parts, &staged, request))
    }

    /// Live ids of a half-open range, in id order or reversed, up to a limit.
    pub fn scan_ids(
        &self,
        from: Option<&str>,
        to: Option<&str>,
        limit: usize,
        reverse: bool,
    ) -> (r: Result<Vec<String>, InvertedRange>)
        requires
            engine::store_ok(self@),
            self.countable(),
        ensures
            ({
                let req = scan::plain_scan(
                    part::bound_view(from),
                    part::bound_view(to),
                    limit,
                    reverse,
                );
                match r {
                    Ok(ids) => !read_store::inverted(req.from, req.to) && scan::texts_view(ids@)
                        == scan::ids_of(
                        scan::scanned(self@.parts, overlay_of(self@.mem, req), req).rows,
                    ),
                    Err(_) => read_store::inverted(req.from, req.to),
                }
            }),
    {
        let request = RowScan {
            from,
            to,
            limit,
            reverse,
            max_resolution_entries: usize::MAX,
            allow_oversized_group: true,
        };
        match self.scan(request) {
            Ok(batch) => Ok(scan::take_ids(&batch.rows)),
            Err(e) => Err(e),
        }
    }

    /// Every live id, sorted.
    pub fn ids(&self) -> (r: Vec<String>)
        requires
            engine::store_ok(self@),
            self.countable(),
        ensures
            scan::ascending(scan::texts_view(r@)),
            forall|id: Seq<char>|
                #[trigger] scan::texts_view(r@).contains(id) <==> visible(self@, id) is Some,
    {
        let request = RowScan {
            from: None,
            to: None,
            limit: usize::MAX,
            reverse: false,
            max_resolution_entries: usize::MAX,
            allow_oversized_group: true,
        };
        let staged = overlay(&self.mem, &request);
        proof {
            lemma_overlay(self@.mem, request@);
            assert(scan::overlay_view(staged@).len() == staged@.len());
        }
        let batch = scan::scan_rows(&self.parts, &staged, request);
        let r = scan::take_ids(&batch.rows);
        proof {
            let all = self@.parts;
            let req = request@;
            let o = overlay_of(self@.mem, req);
            let rows = batch@.rows;
            scan_laws::lemma_scan_faithful(all, o, req);
            let out = scan::texts_view(r@);
            assert forall|i: int, j: int| 0 <= i < j < out.len() implies bytes::name_lt(
                #[trigger] out[i],
                #[trigger] out[j],
            ) by {
                assert(out[i] == rows[i].id && out[j] == rows[j].id);
            }
            assert forall|id: Seq<char>| #[trigger] out.contains(id) <==> visible(
                self@,
                id,
            ) is Some by {
                lemma_scan_sees_visible(self@, req, id);
                if out.contains(id) {
                    let i = choose|i: int| 0 <= i < out.len() && out[i] == id;
                    assert(rows[i].id == id);
                    assert(scan_laws::live(all, o, rows[i].id));
                }
                if visible(self@, id) is Some {
                    if !scan::in_overlay(o, id) {
                        read::lemma_newest(all, id);
                        let (p, row) = read::newest(all, id)->0;
                        assert(part::row_of(all[p as int].rows, id) is Some);
                        assert(scan::in_parts(all, id));
                    }
                    assert(scan::met(all, o, req, id));
                    scan_laws::lemma_scan_complete(all, o, req, id);
                    let i = choose|i: int| 0 <= i < rows.len() && (#[trigger] rows[i]).id == id;
                    assert(out[i] == id);
                }
            }
        }
        r
    }

    /// Whether a resolved row may meet every condition; `None` for a part that is not here. A
    /// staged row always may.
    pub fn candidate_may_match(&self, row: &RowRef, predicates: &Vec<PartPredicate<'_>>) -> (r: Option<
        bool,
    >)
        ensures
            match row.origin {
                RowOrigin::Memtable => r == Some(true),
                RowOrigin::Part { part, row } => match r {
                    None => part >= self@.parts.len(),
                    Some(ok) => part < self@.parts.len() && ok == forall|i: int|
                        0 <= i < predicates@.len() ==> scan::may_match(
                            self@.parts[part as int],
                            #[trigger] predicates@[i],
                        ),
                },
            },
    {
        match row.origin {
            RowOrigin::Memtable => Some(true),
            RowOrigin::Part { part, row } => {
                if part >= self.parts.len() {
                    return None;
                }
                assert(self@.parts[part as int] == self.parts@[part as int]@);
                Some(scan::part_may_match(&self.parts[part], predicates))
            },
        }
    }

    /// The rows, parts and staged entries a range reaches, before versions are resolved; `None`
    /// where the row count does not fit.
    pub fn explain_scan(&self, request: RowScan<'_>) -> (r: Option<(ScanPhysicalScope, usize)>)
        requires
            engine::store_ok(self@),
        ensures
            ({
                let rows = scan::rows_in_bounds(
                    self@.parts,
                    request@.from,
                    request@.to,
                    self@.parts.len(),
                );
                match r {
                    Some((s, staged)) => {
                        &&& s.immutable_parts_considered == self@.parts.len()
                        &&& s.immutable_parts_with_rows == scan::parts_in_bounds(
                            self@.parts,
                            request@.from,
                            request@.to,
                            self@.parts.len(),
                        )
                        &&& s.immutable_rows_in_bounds == rows
                        &&& staged == entries(
                            self@.mem,
                            request@.from,
                            request@.to,
                            self@.mem.len(),
                        ).len()
                    },
                    None => rows > usize::MAX,
                }
            }),
    {
        match scan::scan_physical_scope(&self.parts, request.from, request.to) {
            Some(s) => {
                let staged = overlay(&self.mem, &request);
                assert(scan::overlay_view(staged@).len() == staged@.len());
                Some((s, staged.len()))
            },
            None => None,
        }
    }

    /// The wanted fields of resolved rows, staged or committed, in the order they were resolved.
    pub fn project_candidates(
        &self,
        resolved: &Vec<RowRef>,
        attrs: &Vec<&str>,
        contents: &Vec<&str>,
    ) -> (r: Result<Vec<Record>, StoreProjectError>)
        requires
            engine::store_ok(self@),
        ensures
            ({
                let refs = scan::row_refs_view(resolved@);
                match r {
                    Ok(records) => store_projection_fault(self@, refs) is None
                        && project::records_view(records@) == Seq::new(
                        refs.len(),
                        |i: int|
                            store_projected(
                                self@,
                                refs[i],
                                project::names_view(attrs@),
                                project::names_view(contents@),
                            ),
                    ),
                    Err(e) => store_projection_fault(self@, refs) == Some(e),
                }
            }),
    {
        let ghost refs = scan::row_refs_view(resolved@);
        let ghost mem = self@.mem;
        let mut committed: Vec<RowRef> = Vec::new();
        let mut i: usize = 0;
        assert(scan::row_refs_view(committed@) =~= Seq::<RowRefView>::empty());
        while i < resolved.len()
            invariant
                refs == scan::row_refs_view(resolved@),
                mem == self@.mem,
                engine::store_ok(self@),
                i <= resolved@.len(),
                not_live(mem, refs, i as nat) is None,
                scan::row_refs_view(committed@) == committed_refs(refs, i as nat),
            decreases resolved.len() - i,
        {
            assert(refs[i as int] == resolved@[i as int]@);
            match resolved[i].origin {
                RowOrigin::Memtable => {
                    let live = match memtable::find_row(&self.mem, resolved[i].id.as_str()) {
                        Some(k) => {
                            assert(mem[k as int] == self.mem@[k as int]@);
                            self.mem[k].record.is_some()
                        },
                        None => false,
                    };
                    if !live {
                        proof {
                            lemma_not_live_prefix(mem, refs, (i + 1) as nat, refs.len());
                        }
                        return Err(StoreProjectError::NotLive { index: i });
                    }
                },
                RowOrigin::Part { .. } => {
                    let ghost before = committed@;
                    let row = RowRef { id: resolved[i].id.clone(), origin: resolved[i].origin };
                    let ghost rv = row@;
                    committed.push(row);
                    assert(scan::row_refs_view(committed@) =~= scan::row_refs_view(before).push(
                        rv,
                    ));
                },
            }
            i = i + 1;
        }
        let projected = match project::project_rows(&self.parts, &committed, attrs, contents) {
            Ok(p) => p,
            Err(error) => {
                return Err(StoreProjectError::Committed { error });
            },
        };
        let ghost crefs = committed_refs(refs, refs.len());
        let ghost av = project::names_view(attrs@);
        let ghost cv = project::names_view(contents@);
        proof {
            assert(project::records_view(projected@).len() == projected@.len());
            assert forall|k: int| 0 <= k < crefs.len() implies (#[trigger] projected@[k])@
                == project::projected(self@.parts, crefs[k], av, cv) by {
                assert(project::records_view(projected@)[k] == projected@[k]@);
            }
        }
        let mut out: Vec<Record> = Vec::new();
        let mut next: usize = 0;
        let mut k: usize = 0;
        while k < resolved.len()
            invariant
                refs == scan::row_refs_view(resolved@),
                mem == self@.mem,
                engine::store_ok(self@),
                not_live(mem, refs, refs.len()) is None,
                crefs == committed_refs(refs, refs.len()),
                av == project::names_view(attrs@),
                cv == project::names_view(contents@),
                projected@.len() == crefs.len(),
                forall|j: int|
                    0 <= j < crefs.len() ==> (#[trigger] projected@[j])@ == project::projected(
                        self@.parts,
                        crefs[j],
                        av,
                        cv,
                    ),
                k <= resolved@.len(),
                next == committed_refs(refs, k as nat).len(),
                out@.len() == k,
                forall|j: int|
                    0 <= j < k ==> (#[trigger] out@[j])@ == store_projected(
                        self@,
                        refs[j],
                        av,
                        cv,
                    ),
            decreases resolved.len() - k,
        {
            assert(refs[k as int] == resolved@[k as int]@);
            match resolved[k].origin {
                RowOrigin::Memtable => {
                    proof {
                        lemma_live_each(mem, refs, refs.len(), k as int);
                    }
                    if let Some(m) = memtable::find_row(&self.mem, resolved[k].id.as_str()) {
                        assert(mem[m as int] == self.mem@[m as int]@);
                        if let Some(full) = &self.mem[m].record {
                            out.push(
                                Record {
                                    id: full.id.clone(),
                                    contents: project::select_contents(&full.contents, contents),
                                    attrs: project::select_attrs(&full.attrs, attrs),
                                },
                            );
                        }
                    }
                },
                RowOrigin::Part { .. } => {
                    proof {
                        lemma_committed_at(refs, k as int, refs.len());
                    }
                    let count: usize = projected.len();
                    assert(next < count);
                    out.push(projected[next].clone());
                    next = next + 1;
                },
            }
            k = k + 1;
        }
        assert(project::records_view(out@) =~= Seq::new(
            refs.len(),
            |j: int| store_projected(self@, refs[j], av, cv),
        ));
        Ok(out)
    }

    /// The value of a projected content of one resolved row.
    pub fn reconstruct_candidate_content(&self, resolved: &RowRef, content: &Content) -> (r: Result<
        Vec<u8>,
        ProjectError,
    >)
        requires
            engine::store_ok(self@),
        ensures
            ({
                let want = if resolved.origin == RowOrigin::Memtable {
                    if staged_record(self@.mem, resolved.id@) is None {
                        Err::<Seq<u8>, ProjectError>(ProjectError::MemtableRow)
                    } else {
                        match staged_value(self@.parts, self@.writer, content@) {
                            Ok(b) => Ok(b),
                            Err(error) => Err(ProjectError::Read { error }),
                        }
                    }
                } else {
                    project::projected_value(
                        self@.parts,
                        self@.writer.fold,
                        resolved@,
                        content@,
                    )
                };
                want == (match r {
                    Ok(b) => Ok::<Seq<u8>, ProjectError>(b@),
                    Err(e) => Err(e),
                })
            }),
    {
        match resolved.origin {
            RowOrigin::Part { .. } => project::reconstruct_projected_content(
                &self.parts,
                &self.writer.fold,
                resolved,
                content,
            ),
            RowOrigin::Memtable => {
                let live = match memtable::find_row(&self.mem, resolved.id.as_str()) {
                    Some(k) => {
                        assert(self@.mem[k as int] == self.mem@[k as int]@);
                        self.mem[k].record.is_some()
                    },
                    None => false,
                };
                if !live {
                    return Err(ProjectError::MemtableRow);
                }
                match self.rebuild_projected_content(content) {
                    Ok(b) => Ok(b),
                    Err(error) => Err(ProjectError::Read { error }),
                }
            },
        }
    }

    /// Staged rows.
    pub fn memtable_len(&self) -> (r: usize)
        ensures
            r == self@.mem.len(),
    {
        self.mem.len()
    }

    /// The weight of the staged rows.
    pub fn memtable_bytes(&self) -> (r: usize)
        ensures
            r == self@.mem_bytes,
    {
        self.mem_bytes
    }

    /// Number of committed parts.
    pub fn part_count(&self) -> (r: usize)
        ensures
            r == self@.parts.len(),
    {
        self.parts.len()
    }

    /// Committed parts, oldest to newest.
    pub fn parts(&self) -> (r: &Vec<Part>)
        ensures
            part::parts_view(r@) == self@.parts,
    {
        &self.parts
    }

    /// Hand out the fold and the parts.
    pub fn into_parts(self) -> (r: (fold::Fold, Vec<Part>))
        ensures
            r.0@ == self@.writer.fold,
            part::parts_view(r.1@) == self@.parts,
    {
        (self.writer.fold, self.parts)
    }
}

} // verus!
