//! A part: one immutable, sorted run of rows with its own piece dictionary.
//!
//! A row is a record or a tombstone. A part is held as what its sections decode to.

use crate::bytes;
use crate::fold;
use crate::fold::{Fold, FoldError, FoldView, Loc};
use crate::hash;
use crate::types;
use crate::types::{Content, ContentHash, ContentOp, ContentView, OpView, PieceHash, Record, RecordView};
use vstd::prelude::*;

verus! {

/// One row: a record, or a tombstone that hides older rows of its id.
#[derive(Debug, PartialEq, Eq)]
pub struct Row {
    pub id: String,
    pub record: Option<Record>,
}

/// View of a [`Row`].
pub struct RowView {
    pub id: Seq<char>,
    pub record: Option<RecordView>,
}

/// View of an optional record.
pub open spec fn record_view(r: Option<Record>) -> Option<RecordView> {
    match r {
        Some(r) => Some(r@),
        None => None,
    }
}

impl View for Row {
    type V = RowView;

    open spec fn view(&self) -> RowView {
        RowView { id: self.id@, record: record_view(self.record) }
    }
}

/// Views of rows.
pub open spec fn rows_view(rows: Seq<Row>) -> Seq<RowView> {
    Seq::new(rows.len(), |i: int| rows[i]@)
}

/// Views of a piece dictionary.
pub open spec fn dictionary_view(pieces: Seq<(PieceHash, Loc)>) -> Seq<(Seq<u8>, Loc)> {
    Seq::new(pieces.len(), |i: int| (pieces[i].0@, pieces[i].1))
}

/// An immutable part.
#[derive(Debug, PartialEq, Eq)]
pub struct Part {
    pub seq_lo: u64,
    pub seq_hi: u64,
    pub rows: Vec<Row>,
    pub pieces: Vec<(PieceHash, Loc)>,
    /// How many sections its file has.
    pub sections: usize,
    /// What those sections hold before compression.
    pub section_bytes: u64,
}

/// View of a [`Part`].
pub struct PartView {
    pub seq_lo: u64,
    pub seq_hi: u64,
    pub rows: Seq<RowView>,
    pub pieces: Seq<(Seq<u8>, Loc)>,
    pub sections: usize,
    pub section_bytes: u64,
}

impl View for Part {
    type V = PartView;

    open spec fn view(&self) -> PartView {
        PartView {
            seq_lo: self.seq_lo,
            seq_hi: self.seq_hi,
            rows: rows_view(self.rows@),
            pieces: dictionary_view(self.pieces@),
            sections: self.sections,
            section_bytes: self.section_bytes,
        }
    }
}

/// Views of parts.
pub open spec fn parts_view(parts: Seq<Part>) -> Seq<PartView> {
    Seq::new(parts.len(), |i: int| parts[i]@)
}

impl Clone for Row {
    fn clone(&self) -> (r: Row)
        ensures
            r@ == self@,
    {
        Row {
            id: self.id.clone(),
            record: match &self.record {
                Some(record) => Some(record.clone()),
                None => None,
            },
        }
    }
}

impl Clone for Part {
    fn clone(&self) -> (r: Part)
        ensures
            r@ == self@,
    {
        let mut rows: Vec<Row> = Vec::new();
        let mut i: usize = 0;
        while i < self.rows.len()
            invariant
                i <= self.rows@.len(),
                rows@.len() == i,
                forall|k: int| 0 <= k < i ==> (#[trigger] rows@[k])@ == self.rows@[k]@,
            decreases self.rows.len() - i,
        {
            rows.push(self.rows[i].clone());
            i = i + 1;
        }
        let mut pieces: Vec<(PieceHash, Loc)> = Vec::new();
        let mut k: usize = 0;
        while k < self.pieces.len()
            invariant
                k <= self.pieces@.len(),
                pieces@ == self.pieces@.take(k as int),
            decreases self.pieces.len() - k,
        {
            pieces.push(self.pieces[k]);
            k = k + 1;
            assert(pieces@ =~= self.pieces@.take(k as int));
        }
        assert(pieces@ =~= self.pieces@);
        assert(rows_view(rows@) =~= rows_view(self.rows@));
        Part {
            seq_lo: self.seq_lo,
            seq_hi: self.seq_hi,
            rows,
            pieces,
            sections: self.sections,
            section_bytes: self.section_bytes,
        }
    }
}

/// Ids ascend strictly.
pub open spec fn ids_ascending(rows: Seq<RowView>) -> bool {
    forall|i: int, j: int|
        0 <= i < j < rows.len() ==> bytes::name_lt(#[trigger] rows[i].id, #[trigger] rows[j].id)
}

/// Every record carries its row's id.
pub open spec fn ids_agree(rows: Seq<RowView>) -> bool {
    forall|i: int|
        0 <= i < rows.len() && (#[trigger] rows[i]).record is Some ==> rows[i].record->0.id
            == rows[i].id
}

/// A part's rows are in order.
pub open spec fn part_sound(p: PartView) -> bool {
    &&& ids_ascending(p.rows)
    &&& ids_agree(p.rows)
}

/// Every part's rows are in order.
pub open spec fn parts_sound(parts: Seq<PartView>) -> bool {
    forall|i: int| 0 <= i < parts.len() ==> part_sound(#[trigger] parts[i])
}

/// The row of an id.
pub open spec fn row_of(rows: Seq<RowView>, id: Seq<char>) -> Option<nat> {
    if exists|i: int| 0 <= i < rows.len() && (#[trigger] rows[i]).id == id {
        Some((choose|i: int| 0 <= i < rows.len() && (#[trigger] rows[i]).id == id) as nat)
    } else {
        None
    }
}

/// In an ascending run an id has one row at most.
pub proof fn lemma_row_of(rows: Seq<RowView>, id: Seq<char>, i: int)
    requires
        ids_ascending(rows),
        0 <= i < rows.len(),
        rows[i].id == id,
    ensures
        row_of(rows, id) == Some(i as nat),
{
    let j = row_of(rows, id)->0 as int;
    bytes::lemma_name_order(id, id, id);
    if i < j {
        assert(bytes::name_lt(rows[i].id, rows[j].id));
    } else if j < i {
        assert(bytes::name_lt(rows[j].id, rows[i].id));
    }
}

/// Whether an id lies in a half-open range.
pub open spec fn in_range(id: Seq<char>, from: Option<Seq<char>>, to: Option<Seq<char>>) -> bool {
    &&& from is Some ==> !bytes::name_lt(id, from->0)
    &&& to is Some ==> bytes::name_lt(id, to->0)
}

/// View of an optional bound.
pub open spec fn bound_view(b: Option<&str>) -> Option<Seq<char>> {
    match b {
        Some(s) => Some(s@),
        None => None,
    }
}

/// The location a dictionary gives a piece: the first one.
pub open spec fn find_loc(pieces: Seq<(Seq<u8>, Loc)>, h: Seq<u8>) -> Option<Loc>
    decreases pieces.len(),
{
    if pieces.len() == 0 {
        None
    } else if pieces[0].0 == h {
        Some(pieces[0].1)
    } else {
        find_loc(pieces.drop_first(), h)
    }
}

/// Why stored content does not read.
#[derive(Clone, Copy, Debug, PartialEq, Eq, Structural)]
pub enum ReadError {
    /// A program names a piece its dictionary does not hold.
    AbsentPiece,
    /// A program gives a piece another length than the dictionary.
    PieceLength { declared: u32, actual: u32 },
    /// The fold does not give the piece.
    Fold { error: FoldError },
    /// The value carries no identity.
    NoIdentity,
    /// The bytes are not the value the identity names.
    Identity,
}

/// The bytes of one step.
pub open spec fn op_bytes(pieces: Seq<(Seq<u8>, Loc)>, f: FoldView, op: OpView) -> Result<
    Seq<u8>,
    ReadError,
> {
    match op {
        OpView::Lit(b) => Ok(b),
        OpView::Piece { hash, len } => match find_loc(pieces, hash) {
            None => Err(ReadError::AbsentPiece),
            Some(loc) => if loc.raw != len {
                Err(ReadError::PieceLength { declared: len, actual: loc.raw })
            } else {
                match fold::fold_read(f, loc, hash) {
                    Ok(b) => Ok(b),
                    Err(error) => Err(ReadError::Fold { error }),
                }
            },
        },
    }
}

/// The bytes of a program: its steps' bytes end to end, or the first fault.
pub open spec fn program_bytes(
    pieces: Seq<(Seq<u8>, Loc)>,
    f: FoldView,
    ops: Seq<OpView>,
) -> Result<Seq<u8>, ReadError>
    decreases ops.len(),
{
    if ops.len() == 0 {
        Ok(Seq::empty())
    } else {
        match program_bytes(pieces, f, ops.drop_last()) {
            Err(e) => Err(e),
            Ok(front) => match op_bytes(pieces, f, ops.last()) {
                Err(e) => Err(e),
                Ok(b) => Ok(front + b),
            },
        }
    }
}

/// A fault among the first steps is the program's.
pub proof fn lemma_program_prefix(
    pieces: Seq<(Seq<u8>, Loc)>,
    f: FoldView,
    ops: Seq<OpView>,
    k: int,
)
    requires
        0 <= k <= ops.len(),
        program_bytes(pieces, f, ops.take(k)) is Err,
    ensures
        program_bytes(pieces, f, ops) == program_bytes(pieces, f, ops.take(k)),
    decreases ops.len(),
{
    if k < ops.len() {
        assert(ops.drop_last().take(k) =~= ops.take(k));
        lemma_program_prefix(pieces, f, ops.drop_last(), k);
    } else {
        assert(ops.take(k) =~= ops);
    }
}

/// The value a content program stands for, checked against its identity.
pub open spec fn verified_value(pieces: Seq<(Seq<u8>, Loc)>, f: FoldView, c: ContentView) -> Result<
    Seq<u8>,
    ReadError,
> {
    match program_bytes(pieces, f, c.ops) {
        Err(e) => Err(e),
        Ok(b) => match c.identity {
            None => Err(ReadError::NoIdentity),
            Some(h) => if hash::blake3_digest(b) != h {
                Err(ReadError::Identity)
            } else {
                Ok(b)
            },
        },
    }
}

/// The content with a name: the first one.
pub open spec fn content_named(contents: Seq<ContentView>, name: Seq<char>) -> Option<ContentView>
    decreases contents.len(),
{
    if contents.len() == 0 {
        None
    } else if contents[0].name == name {
        Some(contents[0])
    } else {
        content_named(contents.drop_first(), name)
    }
}

/// A named content is one of the contents.
pub proof fn lemma_content_named(contents: Seq<ContentView>, name: Seq<char>) -> (c: int)
    requires
        content_named(contents, name) is Some,
    ensures
        0 <= c < contents.len(),
        contents[c] == content_named(contents, name)->0,
        contents[c].name == name,
    decreases contents.len(),
{
    if contents[0].name == name {
        0
    } else {
        lemma_content_named(contents.drop_first(), name) + 1
    }
}

/// The position of the content with a name.
pub fn find_content(contents: &Vec<Content>, name: &str) -> (r: Option<usize>)
    ensures
        match r {
            Some(i) => i < contents@.len() && content_named(
                types::contents_view(contents@),
                name@,
            ) == Some(contents@[i as int]@) && contents@[i as int].name@ == name@,
            None => content_named(types::contents_view(contents@), name@) is None,
        },
{
    let ghost all = types::contents_view(contents@);
    let mut i: usize = 0;
    assert(all.skip(0) =~= all);
    while i < contents.len()
        invariant
            all == types::contents_view(contents@),
            i <= contents@.len(),
            content_named(all, name@) == content_named(all.skip(i as int), name@),
        decreases contents.len() - i,
    {
        assert(all.skip(i as int)[0] == contents@[i as int]@);
        assert(all.skip(i as int).drop_first() =~= all.skip(i + 1));
        if bytes::str_eq(contents[i].name.as_str(), name) {
            return Some(i);
        }
        i = i + 1;
    }
    None
}

/// The location a dictionary gives a piece.
pub fn lookup(pieces: &Vec<(PieceHash, Loc)>, h: &PieceHash) -> (r: Option<Loc>)
    ensures
        r == find_loc(dictionary_view(pieces@), h@),
{
    let ghost all = dictionary_view(pieces@);
    let mut i: usize = 0;
    assert(all.skip(0) =~= all);
    while i < pieces.len()
        invariant
            all == dictionary_view(pieces@),
            i <= pieces@.len(),
            find_loc(all, h@) == find_loc(all.skip(i as int), h@),
        decreases pieces.len() - i,
    {
        assert(all.skip(i as int)[0] == (pieces@[i as int].0@, pieces@[i as int].1));
        assert(all.skip(i as int).drop_first() =~= all.skip(i + 1));
        if pieces[i].0.same(h) {
            return Some(pieces[i].1);
        }
        i = i + 1;
    }
    None
}

/// The bytes of a program, read through a dictionary.
pub fn run_program(pieces: &Vec<(PieceHash, Loc)>, f: &Fold, ops: &Vec<ContentOp>) -> (r: Result<
    Vec<u8>,
    ReadError,
>)
    ensures
        match r {
            Ok(b) => program_bytes(dictionary_view(pieces@), f@, types::ops_view(ops@)) == Ok::<
                Seq<u8>,
                ReadError,
            >(b@),
            Err(e) => program_bytes(dictionary_view(pieces@), f@, types::ops_view(ops@)) == Err::<
                Seq<u8>,
                ReadError,
            >(e),
        },
{
    let ghost all = types::ops_view(ops@);
    let ghost dict = dictionary_view(pieces@);
    let mut out: Vec<u8> = Vec::new();
    let mut i: usize = 0;
    assert(all.take(0) =~= Seq::<OpView>::empty());
    while i < ops.len()
        invariant
            all == types::ops_view(ops@),
            dict == dictionary_view(pieces@),
            i <= ops@.len(),
            program_bytes(dict, f@, all.take(i as int)) == Ok::<Seq<u8>, ReadError>(out@),
        decreases ops.len() - i,
    {
        let ghost next = all.take(i + 1);
        proof {
            assert(next.drop_last() =~= all.take(i as int));
            assert(next.last() == ops@[i as int]@);
        }
        match &ops[i] {
            ContentOp::Lit(b) => {
                bytes::append_bytes(&mut out, b.as_slice());
            },
            ContentOp::Piece { hash, len } => {
                let loc = match lookup(pieces, hash) {
                    Some(loc) => loc,
                    None => {
                        proof {
                            lemma_program_prefix(dict, f@, all, i + 1);
                        }
                        return Err(ReadError::AbsentPiece);
                    },
                };
                if loc.raw != *len {
                    proof {
                        lemma_program_prefix(dict, f@, all, i + 1);
                    }
                    return Err(ReadError::PieceLength { declared: *len, actual: loc.raw });
                }
                match f.read_verified(loc, hash) {
                    Ok(b) => {
                        bytes::append_bytes(&mut out, b);
                    },
                    Err(error) => {
                        proof {
                            lemma_program_prefix(dict, f@, all, i + 1);
                        }
                        return Err(ReadError::Fold { error });
                    },
                }
            },
        }
        i = i + 1;
    }
    assert(all.take(i as int) =~= all);
    Ok(out)
}

/// The value a content program stands for, checked against its identity.
pub fn verify_value(pieces: &Vec<(PieceHash, Loc)>, f: &Fold, c: &Content) -> (r: Result<
    Vec<u8>,
    ReadError,
>)
    ensures
        match r {
            Ok(b) => verified_value(dictionary_view(pieces@), f@, c@) == Ok::<Seq<u8>, ReadError>(
                b@,
            ),
            Err(e) => verified_value(dictionary_view(pieces@), f@, c@) == Err::<
                Seq<u8>,
                ReadError,
            >(e),
        },
{
    let b = match run_program(pieces, f, &c.ops) {
        Ok(b) => b,
        Err(e) => {
            return Err(e);
        },
    };
    match &c.identity {
        None => Err(ReadError::NoIdentity),
        Some(h) => {
            let got = ContentHash::of(b.as_slice());
            if !got.same(h) {
                return Err(ReadError::Identity);
            }
            Ok(b)
        },
    }
}

impl Part {
    /// Number of rows.
    pub fn len(&self) -> (r: usize)
        ensures
            r == self@.rows.len(),
    {
        self.rows.len()
    }

    /// Whether there are no rows.
    pub fn is_empty(&self) -> (r: bool)
        ensures
            r == (self@.rows.len() == 0),
    {
        self.rows.len() == 0
    }

    /// The number of rows whose id sorts before a bound.
    pub fn rows_before(&self, bound: &str) -> (r: usize)
        requires
            part_sound(self@),
        ensures
            r <= self@.rows.len(),
            forall|i: int| 0 <= i < r ==> bytes::name_lt(#[trigger] self@.rows[i].id, bound@),
            forall|i: int|
                r <= i < self@.rows.len() ==> !bytes::name_lt(#[trigger] self@.rows[i].id, bound@),
    {
        let ghost rows = self@.rows;
        let mut lo: usize = 0;
        let mut hi: usize = self.rows.len();
        while lo < hi
            invariant
                rows == self@.rows,
                ids_ascending(rows),
                lo <= hi <= rows.len(),
                rows.len() == self.rows@.len(),
                forall|i: int| 0 <= i < lo ==> bytes::name_lt(#[trigger] rows[i].id, bound@),
                forall|i: int|
                    hi <= i < rows.len() ==> !bytes::name_lt(#[trigger] rows[i].id, bound@),
            decreases hi - lo,
        {
            let mid: usize = lo + (hi - lo) / 2;
            assert(rows[mid as int] == self.rows@[mid as int]@);
            if bytes::str_lt(self.rows[mid].id.as_str(), bound) {
                proof {
                    assert forall|i: int| 0 <= i < mid + 1 implies bytes::name_lt(
                        #[trigger] rows[i].id,
                        bound@,
                    ) by {
                        if i < mid {
                            bytes::lemma_name_order(rows[i].id, rows[mid as int].id, bound@);
                        }
                    }
                }
                lo = mid + 1;
            } else {
                proof {
                    assert forall|i: int| mid <= i < rows.len() implies !bytes::name_lt(
                        #[trigger] rows[i].id,
                        bound@,
                    ) by {
                        if i > mid {
                            bytes::lemma_name_order(rows[mid as int].id, rows[i].id, bound@);
                        }
                    }
                }
                hi = mid;
            }
        }
        lo
    }

    /// The row of an id.
    pub fn find(&self, id: &str) -> (r: Option<usize>)
        requires
            part_sound(self@),
        ensures
            row_of(self@.rows, id@) == (match r {
                Some(i) => Some(i as nat),
                None => None,
            }),
            r matches Some(i) ==> i < self@.rows.len() && self@.rows[i as int].id == id@,
    {
        let ghost rows = self@.rows;
        let at: usize = self.rows_before(id);
        if at < self.rows.len() {
            assert(rows[at as int] == self.rows@[at as int]@);
            if bytes::str_eq(self.rows[at].id.as_str(), id) {
                proof {
                    lemma_row_of(rows, id@, at as int);
                }
                return Some(at);
            }
        }
        proof {
            assert forall|i: int| 0 <= i < rows.len() implies (#[trigger] rows[i]).id != id@ by {
                bytes::lemma_name_order(rows[i].id, id@, id@);
                if i > at {
                    bytes::lemma_name_order(rows[at as int].id, rows[i].id, id@);
                    assert(bytes::name_lt(rows[at as int].id, rows[i].id));
                    bytes::lemma_name_order(rows[at as int].id, id@, id@);
                }
            }
        }
        None
    }

    /// The rows with an id in a half-open range: first and one past the last.
    pub fn rows_in_range(&self, from: Option<&str>, to: Option<&str>) -> (r: (usize, usize))
        requires
            part_sound(self@),
        ensures
            r.0 <= r.1 <= self@.rows.len(),
            forall|i: int|
                0 <= i < self@.rows.len() ==> (r.0 <= i < r.1 <==> in_range(
                    #[trigger] self@.rows[i].id,
                    bound_view(from),
                    bound_view(to),
                )),
    {
        let lo: usize = match from {
            Some(f) => self.rows_before(f),
            None => 0,
        };
        let hi: usize = match to {
            Some(t) => self.rows_before(t),
            None => self.rows.len(),
        };
        if hi < lo {
            (lo, lo)
        } else {
            (lo, hi)
        }
    }

    /// Whether a row is a tombstone.
    pub fn is_tombstone(&self, row: usize) -> (r: bool)
        requires
            row < self@.rows.len(),
        ensures
            r == (self@.rows[row as int].record is None),
    {
        assert(self@.rows[row as int] == self.rows@[row as int]@);
        self.rows[row].record.is_none()
    }

    /// The location this part gives a piece.
    pub fn find_piece(&self, h: &PieceHash) -> (r: Option<Loc>)
        ensures
            r == find_loc(self@.pieces, h@),
    {
        lookup(&self.pieces, h)
    }
}

/// Why a value is not a sound part.
#[derive(Clone, Copy, Debug, PartialEq, Eq, Structural)]
pub enum PartError {
    /// Ids do not ascend at a row.
    Order { row: usize },
    /// A record carries another id than its row.
    RecordId { row: usize },
}

/// What is wrong with a row, given that those before it are in order.
pub open spec fn row_fault(rows: Seq<RowView>, i: int) -> Option<PartError> {
    if i > 0 && !bytes::name_lt(rows[i - 1].id, rows[i].id) {
        Some(PartError::Order { row: i as usize })
    } else if rows[i].record is Some && rows[i].record->0.id != rows[i].id {
        Some(PartError::RecordId { row: i as usize })
    } else {
        None
    }
}

/// What is wrong first with the first `n` rows.
pub open spec fn rows_fault(rows: Seq<RowView>, n: nat) -> Option<PartError>
    decreases n,
{
    if n == 0 {
        None
    } else {
        match rows_fault(rows, (n - 1) as nat) {
            Some(e) => Some(e),
            None => row_fault(rows, n - 1),
        }
    }
}

proof fn lemma_rows_fault_prefix(rows: Seq<RowView>, k: nat, n: nat)
    requires
        k <= n,
        rows_fault(rows, k) is Some,
    ensures
        rows_fault(rows, n) == rows_fault(rows, k),
    decreases n,
{
    if k < n {
        lemma_rows_fault_prefix(rows, k, (n - 1) as nat);
    }
}

impl Part {
    /// Check every row of a part.
    pub fn verify_semantics(&self) -> (r: Result<(), PartError>)
        ensures
            match r {
                Ok(()) => rows_fault(self@.rows, self@.rows.len()) is None && part_sound(self@),
                Err(e) => rows_fault(self@.rows, self@.rows.len()) == Some(e),
            },
    {
        let ghost rows = self@.rows;
        let mut i: usize = 0;
        while i < self.rows.len()
            invariant
                rows == self@.rows,
                rows.len() == self.rows@.len(),
                i <= rows.len(),
                rows_fault(rows, i as nat) is None,
                forall|a: int, b: int|
                    0 <= a < b < i ==> bytes::name_lt(#[trigger] rows[a].id, #[trigger] rows[b].id),
                forall|a: int|
                    0 <= a < i && (#[trigger] rows[a]).record is Some ==> rows[a].record->0.id
                        == rows[a].id,
            decreases self.rows.len() - i,
        {
            assert(rows[i as int] == self.rows@[i as int]@);
            if i > 0 {
                assert(rows[i - 1] == self.rows@[i - 1]@);
                if !bytes::str_lt(self.rows[i - 1].id.as_str(), self.rows[i].id.as_str()) {
                    proof {
                        lemma_rows_fault_prefix(rows, (i + 1) as nat, rows.len());
                    }
                    return Err(PartError::Order { row: i });
                }
            }
            if let Some(record) = &self.rows[i].record {
                if !bytes::str_eq(record.id.as_str(), self.rows[i].id.as_str()) {
                    proof {
                        lemma_rows_fault_prefix(rows, (i + 1) as nat, rows.len());
                    }
                    return Err(PartError::RecordId { row: i });
                }
            }
            proof {
                assert forall|a: int, b: int| 0 <= a < b < i + 1 implies bytes::name_lt(
                    #[trigger] rows[a].id,
                    #[trigger] rows[b].id,
                ) by {
                    if b == i && a < i - 1 {
                        bytes::lemma_name_order(rows[a].id, rows[i - 1].id, rows[i as int].id);
                    }
                }
            }
            i = i + 1;
        }
        Ok(())
    }
}

} // verus!
