//! The vocabulary every layer shares.
//!
//! These are the *semantic* types: what a record is, independent of how any layer stores it. Each
//! has a view made of sequences and plain values, which the contracts speak of.

use crate::bytes;
use crate::hash;
use crate::text;
use vstd::prelude::*;

verus! {

broadcast use vstd::seq_lib::group_to_multiset_ensures;

/// A piece's content identity: BLAKE3 of its exact bytes. Identical bytes anywhere in the store
/// resolve to this same value and are stored once.
#[derive(Clone, Copy, Debug, PartialEq, Eq, PartialOrd, Ord, Hash)]
pub struct PieceHash(pub [u8; 32]);

/// A named content value's byte identity: BLAKE3 of the complete reconstructed byte sequence.
///
/// A value can contain literals and any number of pieces, and its identity stays the same when
/// carving boundaries change.
#[derive(Clone, Copy, Debug, PartialEq, Eq, PartialOrd, Ord, Hash)]
pub struct ContentHash(pub [u8; 32]);

/// A typed attribute value: the queryable metadata plane.
///
/// A float is held as its bit pattern, so two values are equal exactly when they are stored the
/// same: a NaN equals itself and `-0.0` differs from `0.0`.
#[derive(Debug, PartialEq, Eq)]
pub enum AttrValue {
    Str(String),
    Int(i64),
    /// The IEEE 754 bit pattern.
    Float(u64),
    Bool(bool),
    UInt(u64),
    Bytes(Vec<u8>),
    /// Nanoseconds since the Unix epoch.
    TimestampNs(i64),
    Null,
}

/// The conventional name used by the body API.
pub const BODY_CONTENT: &'static str = "body";

/// One step of a content value: content is a flat program, and reconstruction is one forward
/// pass that concatenates each step's bytes.
#[derive(Debug, PartialEq, Eq)]
pub enum ContentOp {
    /// Bytes stored inline in the record itself.
    Lit(Vec<u8>),
    /// A reference to folded content, by identity.
    Piece { hash: PieceHash, len: u32 },
}

/// One independently projectable, content-addressed value in a record.
///
/// Names are map keys: they are non-empty and unique within a record.
#[derive(Debug, PartialEq, Eq)]
pub struct Content {
    pub name: String,
    pub ops: Vec<ContentOp>,
    /// Exact reconstructed-byte identity, where the ingest carried it.
    pub identity: Option<ContentHash>,
}

/// A record as the store takes it in and as the log records it: fully carved.
#[derive(Debug, PartialEq, Eq)]
pub struct Record {
    pub id: String,
    /// Named content values. Names are unique; readers return them in UTF-8 byte order.
    pub contents: Vec<Content>,
    /// Exact attribute sequence: order and duplicate keys are preserved.
    pub attrs: Vec<(String, AttrValue)>,
}

/// Why a value is not a record.
#[derive(Clone, Copy, Debug, PartialEq, Eq, Structural)]
pub enum RecordError {
    /// The record id is empty.
    EmptyId,
    /// A content name is empty.
    EmptyContentName,
    /// Two contents carry the same name.
    DuplicateContentName,
}

/// View of an [`AttrValue`].
pub enum AttrView {
    Str(Seq<char>),
    Int(i64),
    Float(u64),
    Bool(bool),
    UInt(u64),
    Bytes(Seq<u8>),
    TimestampNs(i64),
    Null,
}

/// View of a [`ContentOp`].
pub enum OpView {
    Lit(Seq<u8>),
    Piece { hash: Seq<u8>, len: u32 },
}

/// View of a [`Content`].
pub struct ContentView {
    pub name: Seq<char>,
    pub ops: Seq<OpView>,
    pub identity: Option<Seq<u8>>,
}

/// View of a [`Record`].
pub struct RecordView {
    pub id: Seq<char>,
    pub contents: Seq<ContentView>,
    pub attrs: Seq<(Seq<char>, AttrView)>,
}

impl View for PieceHash {
    type V = Seq<u8>;

    open spec fn view(&self) -> Seq<u8> {
        self.0@
    }
}

impl View for ContentHash {
    type V = Seq<u8>;

    open spec fn view(&self) -> Seq<u8> {
        self.0@
    }
}

impl View for AttrValue {
    type V = AttrView;

    open spec fn view(&self) -> AttrView {
        match self {
            AttrValue::Str(s) => AttrView::Str(s@),
            AttrValue::Int(i) => AttrView::Int(*i),
            AttrValue::Float(f) => AttrView::Float(*f),
            AttrValue::Bool(b) => AttrView::Bool(*b),
            AttrValue::UInt(u) => AttrView::UInt(*u),
            AttrValue::Bytes(b) => AttrView::Bytes(b@),
            AttrValue::TimestampNs(t) => AttrView::TimestampNs(*t),
            AttrValue::Null => AttrView::Null,
        }
    }
}

impl View for ContentOp {
    type V = OpView;

    open spec fn view(&self) -> OpView {
        match self {
            ContentOp::Lit(b) => OpView::Lit(b@),
            ContentOp::Piece { hash, len } => OpView::Piece { hash: hash@, len: *len },
        }
    }
}

/// Views of a program's steps.
pub open spec fn ops_view(ops: Seq<ContentOp>) -> Seq<OpView> {
    Seq::new(ops.len(), |i: int| ops[i]@)
}

impl View for Content {
    type V = ContentView;

    open spec fn view(&self) -> ContentView {
        ContentView {
            name: self.name@,
            ops: ops_view(self.ops@),
            identity: match self.identity {
                Some(h) => Some(h@),
                None => None,
            },
        }
    }
}

/// Views of a record's contents.
pub open spec fn contents_view(contents: Seq<Content>) -> Seq<ContentView> {
    Seq::new(contents.len(), |i: int| contents[i]@)
}

/// Views of a record's attributes.
pub open spec fn attrs_view(attrs: Seq<(String, AttrValue)>) -> Seq<(Seq<char>, AttrView)> {
    Seq::new(attrs.len(), |i: int| (attrs[i].0@, attrs[i].1@))
}

impl View for Record {
    type V = RecordView;

    open spec fn view(&self) -> RecordView {
        RecordView {
            id: self.id@,
            contents: contents_view(self.contents@),
            attrs: attrs_view(self.attrs@),
        }
    }
}

/// Copy a byte vector.
pub fn clone_bytes(b: &Vec<u8>) -> (r: Vec<u8>)
    ensures
        r@ == b@,
{
    let mut out: Vec<u8> = Vec::new();
    bytes::append_bytes(&mut out, b.as_slice());
    assert(out@ =~= b@);
    out
}

impl Clone for AttrValue {
    fn clone(&self) -> (r: AttrValue)
        ensures
            r@ == self@,
    {
        match self {
            AttrValue::Str(s) => AttrValue::Str(s.clone()),
            AttrValue::Int(i) => AttrValue::Int(*i),
            AttrValue::Float(f) => AttrValue::Float(*f),
            AttrValue::Bool(b) => AttrValue::Bool(*b),
            AttrValue::UInt(u) => AttrValue::UInt(*u),
            AttrValue::Bytes(b) => AttrValue::Bytes(clone_bytes(b)),
            AttrValue::TimestampNs(t) => AttrValue::TimestampNs(*t),
            AttrValue::Null => AttrValue::Null,
        }
    }
}

impl Clone for ContentOp {
    fn clone(&self) -> (r: ContentOp)
        ensures
            r@ == self@,
    {
        match self {
            ContentOp::Lit(b) => ContentOp::Lit(clone_bytes(b)),
            ContentOp::Piece { hash, len } => ContentOp::Piece { hash: *hash, len: *len },
        }
    }
}

impl Clone for Content {
    fn clone(&self) -> (r: Content)
        ensures
            r@ == self@,
    {
        let mut ops: Vec<ContentOp> = Vec::new();
        let mut i: usize = 0;
        while i < self.ops.len()
            invariant
                i <= self.ops@.len(),
                ops@.len() == i,
                forall|j: int| 0 <= j < i ==> #[trigger] ops@[j]@ == self.ops@[j]@,
            decreases self.ops.len() - i,
        {
            ops.push(self.ops[i].clone());
            i = i + 1;
        }
        assert(ops_view(ops@) =~= ops_view(self.ops@));
        Content { name: self.name.clone(), ops, identity: self.identity }
    }
}

/// Copy an attribute sequence.
pub fn clone_attrs(attrs: &Vec<(String, AttrValue)>) -> (r: Vec<(String, AttrValue)>)
    ensures
        attrs_view(r@) == attrs_view(attrs@),
{
    let mut out: Vec<(String, AttrValue)> = Vec::new();
    let mut i: usize = 0;
    while i < attrs.len()
        invariant
            i <= attrs@.len(),
            out@.len() == i,
            forall|j: int|
                0 <= j < i ==> #[trigger] out@[j].0@ == attrs@[j].0@ && out@[j].1@
                    == attrs@[j].1@,
        decreases attrs.len() - i,
    {
        out.push((attrs[i].0.clone(), attrs[i].1.clone()));
        i = i + 1;
    }
    assert(attrs_view(out@) =~= attrs_view(attrs@));
    out
}

/// Copy a content list.
pub fn clone_contents(contents: &Vec<Content>) -> (r: Vec<Content>)
    ensures
        contents_view(r@) == contents_view(contents@),
{
    let mut out: Vec<Content> = Vec::new();
    let mut i: usize = 0;
    while i < contents.len()
        invariant
            i <= contents@.len(),
            out@.len() == i,
            forall|j: int| 0 <= j < i ==> #[trigger] out@[j]@ == contents@[j]@,
        decreases contents.len() - i,
    {
        out.push(contents[i].clone());
        i = i + 1;
    }
    assert(contents_view(out@) =~= contents_view(contents@));
    out
}

impl Clone for Record {
    fn clone(&self) -> (r: Record)
        ensures
            r@ == self@,
    {
        Record {
            id: self.id.clone(),
            contents: clone_contents(&self.contents),
            attrs: clone_attrs(&self.attrs),
        }
    }
}

/// Whether two 32-byte digests are equal.
pub fn digest_eq(a: &[u8; 32], b: &[u8; 32]) -> (r: bool)
    ensures
        r == (a@ == b@),
{
    let mut i: usize = 0;
    while i < 32
        invariant
            i <= 32,
            forall|j: int| 0 <= j < i ==> a@[j] == b@[j],
        decreases 32 - i,
    {
        if a[i] != b[i] {
            return false;
        }
        i = i + 1;
    }
    assert(a@ =~= b@);
    true
}

impl PieceHash {
    /// The identity of `bytes`.
    pub fn of(bytes: &[u8]) -> (r: PieceHash)
        ensures
            r@ == hash::blake3_digest(bytes@),
    {
        PieceHash(hash::blake3_hash(bytes))
    }

    /// Sixty-four lower-case hexadecimal digits.
    pub fn to_hex(self) -> (s: String)
        ensures
            vstd::utf8::encode_utf8(s@) == text::hex(self@),
            s@ == text::chars(text::hex(self@)),
    {
        let s = text::hex_text(vstd::array::array_as_slice(&self.0));
        assert(2 * self@.len() == 64);
        s
    }

    /// Whether two identities are equal.
    pub fn same(&self, other: &PieceHash) -> (r: bool)
        ensures
            r == (self@ == other@),
    {
        digest_eq(&self.0, &other.0)
    }
}

impl ContentHash {
    /// The identity of `bytes`.
    pub fn of(bytes: &[u8]) -> (r: ContentHash)
        ensures
            r@ == hash::blake3_digest(bytes@),
    {
        ContentHash(hash::blake3_hash(bytes))
    }

    /// Sixty-four lower-case hexadecimal digits.
    pub fn to_hex(self) -> (s: String)
        ensures
            vstd::utf8::encode_utf8(s@) == text::hex(self@),
            s@ == text::chars(text::hex(self@)),
    {
        let s = text::hex_text(vstd::array::array_as_slice(&self.0));
        assert(2 * self@.len() == 64);
        s
    }

    /// Whether two identities are equal.
    pub fn same(&self, other: &ContentHash) -> (r: bool)
        ensures
            r == (self@ == other@),
    {
        digest_eq(&self.0, &other.0)
    }
}

/// The column type tag of a value.
pub open spec fn type_tag(v: AttrView) -> u8 {
    match v {
        AttrView::Str(_) => 0,
        AttrView::Int(_) => 1,
        AttrView::Float(_) => 2,
        AttrView::Bool(_) => 3,
        AttrView::UInt(_) => 4,
        AttrView::Bytes(_) => 5,
        AttrView::TimestampNs(_) => 6,
        AttrView::Null => 7,
    }
}

impl AttrValue {
    /// The column type tag. One logical column per (key, tag), so a key carrying mixed types
    /// across records yields several homogeneous columns.
    pub fn type_tag(&self) -> (r: u8)
        ensures
            r == type_tag(self@),
    {
        match self {
            AttrValue::Str(_) => 0,
            AttrValue::Int(_) => 1,
            AttrValue::Float(_) => 2,
            AttrValue::Bool(_) => 3,
            AttrValue::UInt(_) => 4,
            AttrValue::Bytes(_) => 5,
            AttrValue::TimestampNs(_) => 6,
            AttrValue::Null => 7,
        }
    }
}

/// Reconstructed length of one step.
pub open spec fn op_len(op: OpView) -> nat {
    match op {
        OpView::Lit(b) => b.len(),
        OpView::Piece { hash, len } => len as nat,
    }
}

/// Reconstructed length of a program.
pub open spec fn ops_len(ops: Seq<OpView>) -> nat
    decreases ops.len(),
{
    if ops.len() == 0 {
        0
    } else {
        ops_len(ops.drop_last()) + op_len(ops.last())
    }
}

/// A prefix of a program is no longer than the program.
pub proof fn lemma_ops_len_prefix(ops: Seq<OpView>, k: int)
    requires
        0 <= k <= ops.len(),
    ensures
        ops_len(ops.take(k)) <= ops_len(ops),
    decreases ops.len(),
{
    if k == ops.len() {
        assert(ops.take(k) =~= ops);
    } else {
        lemma_ops_len_prefix(ops.drop_last(), k);
        assert(ops.drop_last().take(k) =~= ops.take(k));
    }
}

impl ContentOp {
    /// Reconstructed length of this step, without resolving anything.
    pub fn len(&self) -> (r: u64)
        ensures
            r == op_len(self@),
    {
        match self {
            ContentOp::Lit(b) => b.len() as u64,
            ContentOp::Piece { hash, len } => *len as u64,
        }
    }

    /// Whether this step contributes no bytes.
    pub fn is_empty(&self) -> (r: bool)
        ensures
            r == (op_len(self@) == 0),
    {
        self.len() == 0
    }
}

impl Content {
    /// A content value without a recorded identity.
    pub fn new(name: &str, ops: Vec<ContentOp>) -> (r: Content)
        ensures
            r@ == (ContentView { name: name@, ops: ops_view(ops@), identity: None }),
    {
        Content { name: name.to_owned(), ops, identity: None }
    }

    /// A content value with the identity of its reconstructed bytes.
    pub fn identified(name: &str, ops: Vec<ContentOp>, identity: ContentHash) -> (r: Content)
        ensures
            r@ == (ContentView {
                name: name@,
                ops: ops_view(ops@),
                identity: Some(identity@),
            }),
    {
        Content { name: name.to_owned(), ops, identity: Some(identity) }
    }

    /// Reconstructed length without touching the fold.
    pub fn len(&self) -> (r: u64)
        requires
            ops_len(self@.ops) <= u64::MAX,
        ensures
            r == ops_len(self@.ops),
    {
        let mut total: u64 = 0;
        let mut i: usize = 0;
        assert(self@.ops.take(0) =~= Seq::<OpView>::empty());
        while i < self.ops.len()
            invariant
                i <= self.ops@.len(),
                ops_len(self@.ops) <= u64::MAX,
                total == ops_len(self@.ops.take(i as int)),
            decreases self.ops.len() - i,
        {
            proof {
                let next = self@.ops.take(i + 1);
                assert(next.drop_last() =~= self@.ops.take(i as int));
                assert(next.last() == self.ops@[i as int]@);
                lemma_ops_len_prefix(self@.ops, i + 1);
            }
            total = total + self.ops[i].len();
            i = i + 1;
        }
        assert(self@.ops.take(i as int) =~= self@.ops);
        total
    }

    /// An empty value is still present: absence is no [`Content`] carrying the name.
    pub fn is_empty(&self) -> (r: bool)
        requires
            ops_len(self@.ops) <= u64::MAX,
        ensures
            r == (ops_len(self@.ops) == 0),
    {
        self.len() == 0
    }
}

/// Some earlier content carries the name of content `k`.
pub open spec fn name_repeats(contents: Seq<ContentView>, k: int) -> bool {
    exists|j: int| 0 <= j < k && #[trigger] contents[j].name == contents[k].name
}

/// The first breach of the content-map rules: names are non-empty and occur once.
pub open spec fn contents_fault(contents: Seq<ContentView>) -> Option<RecordError>
    decreases contents.len(),
{
    if contents.len() == 0 {
        None
    } else {
        match contents_fault(contents.drop_last()) {
            Some(e) => Some(e),
            None => if contents.last().name.len() == 0 {
                Some(RecordError::EmptyContentName)
            } else if name_repeats(contents, contents.len() - 1) {
                Some(RecordError::DuplicateContentName)
            } else {
                None
            },
        }
    }
}

/// Names are non-empty and pairwise different.
pub open spec fn names_unique(contents: Seq<ContentView>) -> bool {
    &&& forall|i: int| 0 <= i < contents.len() ==> (#[trigger] contents[i]).name.len() > 0
    &&& forall|i: int, j: int|
        0 <= i < j < contents.len() ==> (#[trigger] contents[i]).name != (
        #[trigger] contents[j]).name
}

/// The rules are met exactly when names are non-empty and pairwise different.
pub proof fn lemma_contents_fault(contents: Seq<ContentView>)
    ensures
        contents_fault(contents) is None <==> names_unique(contents),
    decreases contents.len(),
{
    if contents.len() > 0 {
        let front = contents.drop_last();
        let n = contents.len() - 1;
        lemma_contents_fault(front);
        if contents_fault(contents) is None {
            assert forall|i: int, j: int| 0 <= i < j < contents.len() implies (
            #[trigger] contents[i]).name != (#[trigger] contents[j]).name by {
                if j < n {
                    assert(front[i] == contents[i] && front[j] == contents[j]);
                }
            }
            assert forall|i: int| 0 <= i < contents.len() implies (
            #[trigger] contents[i]).name.len() > 0 by {
                if i < n {
                    assert(front[i] == contents[i]);
                }
            }
        } else if names_unique(contents) {
            assert forall|i: int, j: int| 0 <= i < j < front.len() implies (
            #[trigger] front[i]).name != (#[trigger] front[j]).name by {
                assert(front[i] == contents[i] && front[j] == contents[j]);
            }
            assert forall|i: int| 0 <= i < front.len() implies (#[trigger] front[i]).name.len()
                > 0 by {
                assert(front[i] == contents[i]);
            }
        }
    }
}

/// A breach in a prefix is the breach of the whole.
pub proof fn lemma_contents_fault_prefix(contents: Seq<ContentView>, k: int)
    requires
        0 <= k <= contents.len(),
        contents_fault(contents.take(k)) is Some,
    ensures
        contents_fault(contents) == contents_fault(contents.take(k)),
    decreases contents.len(),
{
    if k < contents.len() {
        assert(contents.drop_last().take(k) =~= contents.take(k));
        lemma_contents_fault_prefix(contents.drop_last(), k);
    } else {
        assert(contents.take(k) =~= contents);
    }
}

/// Enforce the content-map rules without changing the order.
pub fn validate_contents(contents: &[Content]) -> (r: Result<(), RecordError>)
    ensures
        match r {
            Ok(()) => contents_fault(contents_view(contents@)) is None,
            Err(e) => contents_fault(contents_view(contents@)) == Some(e),
        },
{
    let ghost all = contents_view(contents@);
    let mut i: usize = 0;
    while i < contents.len()
        invariant
            i <= contents@.len(),
            all == contents_view(contents@),
            contents_fault(all.take(i as int)) is None,
        decreases contents.len() - i,
    {
        let ghost next = all.take(i + 1);
        assert(next.drop_last() =~= all.take(i as int));
        if contents[i].name.as_str().is_empty() {
            proof {
                lemma_contents_fault_prefix(all, i + 1);
            }
            return Err(RecordError::EmptyContentName);
        }
        let mut j: usize = 0;
        while j < i
            invariant
                j <= i < contents@.len(),
                all == contents_view(contents@),
                next == all.take(i + 1),
                next.drop_last() == all.take(i as int),
                contents_fault(all.take(i as int)) is None,
                contents@[i as int].name@.len() > 0,
                forall|k: int| 0 <= k < j ==> (#[trigger] next[k]).name != next[i as int].name,
            decreases i - j,
        {
            if bytes::str_eq(contents[j].name.as_str(), contents[i].name.as_str()) {
                proof {
                    assert(next[j as int].name == next[i as int].name);
                    assert(name_repeats(next, next.len() - 1));
                    lemma_contents_fault_prefix(all, i + 1);
                }
                return Err(RecordError::DuplicateContentName);
            }
            j = j + 1;
        }
        assert(!name_repeats(next, next.len() - 1));
        i = i + 1;
    }
    assert(all.take(i as int) =~= all);
    Ok(())
}

/// Contents in UTF-8 byte order of their names, each name once.
pub open spec fn names_ascending(contents: Seq<ContentView>) -> bool {
    forall|i: int, j: int|
        0 <= i < j < contents.len() ==> bytes::name_lt(
            (#[trigger] contents[i]).name,
            (#[trigger] contents[j]).name,
        )
}

/// The same contents in name order.
pub open spec fn canonical_of(from: Seq<ContentView>, to: Seq<ContentView>) -> bool {
    &&& names_ascending(to)
    &&& to.to_multiset() == from.to_multiset()
}

fn insert_content(out: &mut Vec<Content>, c: Content)
    requires
        names_ascending(contents_view(old(out)@)),
        forall|i: int| 0 <= i < old(out)@.len() ==> (#[trigger] old(out)@[i]).name@ != c.name@,
    ensures
        names_ascending(contents_view(final(out)@)),
        contents_view(final(out)@).to_multiset() == contents_view(old(out)@).to_multiset().insert(
            c@,
        ),
        forall|i: int|
            0 <= i < final(out)@.len() ==> (#[trigger] final(out)@[i]).name@ == c.name@ || exists|
                k: int,
            |
                0 <= k < old(out)@.len() && (#[trigger] old(out)@[k]).name@
                    == final(out)@[i].name@,
{
    let mut at: usize = 0;
    while at < out.len() && bytes::str_lt(out[at].name.as_str(), c.name.as_str())
        invariant
            *out == *old(out),
            at <= out@.len(),
            forall|k: int| 0 <= k < at ==> bytes::name_lt((#[trigger] out@[k]).name@, c.name@),
        decreases out.len() - at,
    {
        at = at + 1;
    }
    let ghost before = contents_view(out@);
    let ghost cv = c@;
    proof {
        assert forall|k: int| at <= k < out@.len() implies bytes::name_lt(
            cv.name,
            (#[trigger] out@[k]).name@,
        ) by {
            bytes::lemma_name_order(cv.name, out@[at as int].name@, out@[k].name@);
            if k > at {
                assert(before[at as int].name == out@[at as int].name@);
                assert(before[k].name == out@[k].name@);
            }
        }
    }
    out.insert(at, c);
    proof {
        let after = contents_view(out@);
        assert(after =~= before.insert(at as int, cv));
        vstd::seq_lib::to_multiset_insert(before, at as int, cv);
        assert forall|i: int, j: int| 0 <= i < j < after.len() implies bytes::name_lt(
            (#[trigger] after[i]).name,
            (#[trigger] after[j]).name,
        ) by {
            let oi = if i < at { i } else { i - 1 };
            let oj = if j < at { j } else { j - 1 };
            if i != at && j != at {
                assert(after[i] == before[oi] && after[j] == before[oj]);
            } else if i == at {
                assert(after[j] == before[oj]);
                assert(before[oj].name == old(out)@[oj].name@);
            } else {
                assert(after[i] == before[oi]);
                assert(before[oi].name == old(out)@[oi].name@);
            }
        }
        assert forall|i: int| 0 <= i < out@.len() implies (#[trigger] out@[i]).name@ == cv.name
            || exists|k: int|
            0 <= k < old(out)@.len() && (#[trigger] old(out)@[k]).name@ == out@[i].name@ by {
            if i < at {
                assert(old(out)@[i].name@ == out@[i].name@);
            } else if i > at {
                assert(old(out)@[i - 1].name@ == out@[i].name@);
            }
        }
    }
}

/// Put contents into name order.
pub fn sort_contents(contents: Vec<Content>) -> (r: Vec<Content>)
    requires
        names_unique(contents_view(contents@)),
    ensures
        canonical_of(contents_view(contents@), contents_view(r@)),
{
    let ghost all = contents_view(contents@);
    let mut rest = contents;
    let mut out: Vec<Content> = Vec::new();
    proof {
        assert(contents_view(out@) =~= Seq::<ContentView>::empty());
        assert(all.to_multiset() =~= contents_view(rest@).to_multiset().add(
            contents_view(out@).to_multiset(),
        ));
    }
    while rest.len() > 0
        invariant
            names_unique(contents_view(rest@)),
            names_ascending(contents_view(out@)),
            all.to_multiset() == contents_view(rest@).to_multiset().add(
                contents_view(out@).to_multiset(),
            ),
            forall|i: int, j: int|
                0 <= i < out@.len() && 0 <= j < rest@.len() ==> (#[trigger] out@[i]).name@ != (
                #[trigger] rest@[j]).name@,
        decreases rest.len(),
    {
        let ghost before = rest@;
        let ghost out_before = out@;
        let c = rest.pop().unwrap();
        let ghost cv = c@;
        proof {
            let n = before.len() - 1;
            assert(contents_view(rest@) =~= contents_view(before).drop_last());
            assert(contents_view(before) =~= contents_view(rest@).push(cv));
            assert(contents_view(before).to_multiset() =~= contents_view(
                rest@,
            ).to_multiset().insert(cv));
            assert forall|i: int| 0 <= i < out@.len() implies (#[trigger] out@[i]).name@
                != c.name@ by {
                assert(before[n].name@ == c.name@);
            }
            assert forall|i: int, j: int|
                0 <= i < j < contents_view(rest@).len() implies (#[trigger] contents_view(
                rest@,
            )[i]).name != (#[trigger] contents_view(rest@)[j]).name by {
                assert(contents_view(before)[i].name == contents_view(rest@)[i].name);
                assert(contents_view(before)[j].name == contents_view(rest@)[j].name);
            }
            assert forall|j: int| 0 <= j < rest@.len() implies (#[trigger] rest@[j]).name@
                != cv.name by {
                assert(contents_view(before)[j].name == rest@[j].name@);
                assert(contents_view(before)[n].name == cv.name);
            }
        }
        insert_content(&mut out, c);
        proof {
            assert(all.to_multiset() =~= contents_view(rest@).to_multiset().add(
                contents_view(out@).to_multiset(),
            ));
            assert forall|i: int, j: int|
                0 <= i < out@.len() && 0 <= j < rest@.len() implies (#[trigger] out@[i]).name@ != (
            #[trigger] rest@[j]).name@ by {
                if out@[i].name@ != cv.name {
                    let k = choose|k: int|
                        0 <= k < out_before.len() && (#[trigger] out_before[k]).name@
                            == out@[i].name@;
                    assert(before[j].name@ == rest@[j].name@);
                }
            }
        }
    }
    assert(contents_view(rest@) =~= Seq::<ContentView>::empty());
    assert(contents_view(out@).to_multiset() =~= all.to_multiset());
    out
}

impl Record {
    /// Construct a record and put its contents into name order.
    pub fn new(id: &str, contents: Vec<Content>, attrs: Vec<(String, AttrValue)>) -> (r: Result<
        Record,
        RecordError,
    >)
        ensures
            match r {
                Ok(record) => {
                    &&& id@.len() > 0
                    &&& contents_fault(contents_view(contents@)) is None
                    &&& record@.id == id@
                    &&& canonical_of(contents_view(contents@), record@.contents)
                    &&& record@.attrs == attrs_view(attrs@)
                },
                Err(e) => if id@.len() == 0 {
                    e == RecordError::EmptyId
                } else {
                    contents_fault(contents_view(contents@)) == Some(e)
                },
            },
    {
        if id.is_empty() {
            return Err(RecordError::EmptyId);
        }
        match validate_contents(contents.as_slice()) {
            Ok(()) => {},
            Err(e) => {
                return Err(e);
            },
        }
        proof {
            lemma_contents_fault(contents_view(contents@));
        }
        let contents = sort_contents(contents);
        Ok(Record { id: id.to_owned(), contents, attrs })
    }

    /// A named content value, if present: the first that carries the name.
    pub fn content(&self, name: &str) -> (r: Option<&Content>)
        ensures
            match r {
                Some(c) => exists|i: int|
                    {
                        &&& 0 <= i < self.contents@.len()
                        &&& *c == #[trigger] self.contents@[i]
                        &&& c.name@ == name@
                        &&& forall|j: int|
                            0 <= j < i ==> (#[trigger] self.contents@[j]).name@ != name@
                    },
                None => forall|j: int|
                    0 <= j < self.contents@.len() ==> (#[trigger] self.contents@[j]).name@
                        != name@,
            },
    {
        let mut i: usize = 0;
        while i < self.contents.len()
            invariant
                i <= self.contents@.len(),
                forall|j: int| 0 <= j < i ==> (#[trigger] self.contents@[j]).name@ != name@,
            decreases self.contents.len() - i,
        {
            if bytes::str_eq(self.contents[i].name.as_str(), name) {
                return Some(&self.contents[i]);
            }
            i = i + 1;
        }
        None
    }

    /// The body program, if content named `body` is present.
    pub fn body(&self) -> (r: Option<&[ContentOp]>)
        ensures
            match r {
                Some(ops) => exists|i: int|
                    {
                        &&& 0 <= i < self.contents@.len()
                        &&& ops@ == (#[trigger] self.contents@[i]).ops@
                        &&& self.contents@[i].name@ == BODY_CONTENT@
                        &&& forall|j: int|
                            0 <= j < i ==> (#[trigger] self.contents@[j]).name@ != BODY_CONTENT@
                    },
                None => forall|j: int|
                    0 <= j < self.contents@.len() ==> (#[trigger] self.contents@[j]).name@
                        != BODY_CONTENT@,
            },
    {
        match self.content(BODY_CONTENT) {
            Some(c) => Some(c.ops.as_slice()),
            None => None,
        }
    }

    /// The reconstructed length of a named content value, without touching the fold.
    pub fn content_len(&self, name: &str) -> (r: Option<u64>)
        requires
            forall|i: int|
                0 <= i < self.contents@.len() ==> ops_len((#[trigger] self.contents@[i])@.ops)
                    <= u64::MAX,
        ensures
            match r {
                Some(n) => exists|i: int|
                    {
                        &&& 0 <= i < self.contents@.len()
                        &&& n == ops_len((#[trigger] self.contents@[i])@.ops)
                        &&& self.contents@[i].name@ == name@
                        &&& forall|j: int|
                            0 <= j < i ==> (#[trigger] self.contents@[j]).name@ != name@
                    },
                None => forall|j: int|
                    0 <= j < self.contents@.len() ==> (#[trigger] self.contents@[j]).name@
                        != name@,
            },
    {
        match self.content(name) {
            Some(c) => Some(c.len()),
            None => None,
        }
    }

    /// [`Record::content_len`] of the body. An absent body reports zero.
    pub fn body_len(&self) -> (r: u64)
        requires
            forall|i: int|
                0 <= i < self.contents@.len() ==> ops_len((#[trigger] self.contents@[i])@.ops)
                    <= u64::MAX,
        ensures
            if forall|j: int|
                0 <= j < self.contents@.len() ==> (#[trigger] self.contents@[j]).name@
                    != BODY_CONTENT@ {
                r == 0
            } else {
                exists|i: int|
                    {
                        &&& 0 <= i < self.contents@.len()
                        &&& r == ops_len((#[trigger] self.contents@[i])@.ops)
                        &&& self.contents@[i].name@ == BODY_CONTENT@
                        &&& forall|j: int|
                            0 <= j < i ==> (#[trigger] self.contents@[j]).name@ != BODY_CONTENT@
                    }
            },
    {
        match self.content_len(BODY_CONTENT) {
            Some(n) => n,
            None => 0,
        }
    }
}

} // verus!
