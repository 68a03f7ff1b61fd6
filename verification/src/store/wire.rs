//! The record payload a log frame carries.
//!
//! ```text
//! record:   id | content count | contents | attributes | novel pieces
//! content:  name | identity (32) | operations
//! ```
//!
//! A payload holds the carved result, never raw input, so it replays exactly. Piece bytes ride
//! along only for pieces that were new when the record was written.

use crate::bytes;
use crate::hash;
use crate::types::{
    AttrValue, AttrView, Content, ContentHash, ContentOp, ContentView, OpView, PieceHash, Record,
    RecordError, RecordView,
};
use crate::types;
use crate::varint;
use crate::varint::VarintError;
use vstd::bytes::*;
use vstd::prelude::*;
use vstd::slice::slice_subrange;
use vstd::utf8::*;

verus! {

/// Why a record payload is refused, when writing it or when reading it.
#[derive(Clone, Copy, Debug, PartialEq, Eq, Structural)]
pub enum WireError {
    /// A length or count could not be read.
    Varint(VarintError),
    /// A length or count exceeds the address space.
    TooLarge,
    /// A byte string runs past the frame.
    ByteStringPastFrame,
    /// A fixed-width field runs past the frame.
    FieldPastFrame,
    /// The payload ends inside a content operation.
    TruncatedOp,
    /// A content operation has an unknown tag.
    UnknownOpTag,
    /// A piece length exceeds 32 bits.
    PieceTooLong,
    /// A piece length is zero.
    ZeroPiece,
    /// A text field is not UTF-8.
    NotUtf8,
    /// An attribute name is empty.
    EmptyAttrName,
    /// The payload ends inside an attribute.
    TruncatedAttr,
    /// A boolean byte is neither zero nor one.
    InvalidBool,
    /// An attribute has an unknown type tag.
    UnknownAttrTag,
    /// A novel piece has no bytes.
    EmptyNovel,
    /// A novel piece's bytes do not have its identity.
    NovelMismatch,
    /// Two novel pieces have the same identity.
    DuplicateNovel,
    /// A content operation declares another length than the piece has.
    PieceLength,
    /// A content value has no identity.
    MissingIdentity,
    /// A content value's bytes do not have its identity.
    IdentityMismatch,
    /// Content names repeat or are out of canonical UTF-8 order.
    ContentOrder,
    /// Bytes follow the record.
    TrailingBytes,
    /// The record itself is malformed.
    Record(RecordError),
}

/// A record with the bytes of any piece that was new when it was written.
pub type CarvedRecord = (Record, Vec<(PieceHash, Vec<u8>)>);

/// Views of novel pieces: identity and bytes.
pub open spec fn novel_view(novel: Seq<(PieceHash, Vec<u8>)>) -> Seq<(Seq<u8>, Seq<u8>)> {
    Seq::new(novel.len(), |i: int| (novel[i].0@, novel[i].1@))
}

// ---------------------------------------------------------------------------------------------
// What the writer puts down.
// ---------------------------------------------------------------------------------------------
/// A byte string: its length, then its bytes.
pub open spec fn bytes_wire(s: Seq<u8>) -> Seq<u8> {
    varint::varint(s.len()) + s
}

/// The wire forms of a list's elements, in order.
pub open spec fn list_wire<T>(xs: Seq<T>, item: spec_fn(T) -> Seq<u8>) -> Seq<u8>
    decreases xs.len(),
{
    if xs.len() == 0 {
        Seq::empty()
    } else {
        item(xs[0]) + list_wire(xs.drop_first(), item)
    }
}

/// One content operation.
pub open spec fn op_wire() -> spec_fn(OpView) -> Seq<u8> {
    |op: OpView|
        match op {
            OpView::Lit(b) => seq![0u8] + bytes_wire(b),
            OpView::Piece { hash, len } => seq![1u8] + hash + varint::varint(len as nat),
        }
}

/// A program: the operation count, then the operations.
pub open spec fn ops_wire(ops: Seq<OpView>) -> Seq<u8> {
    varint::varint(ops.len()) + list_wire(ops, op_wire())
}

/// An attribute's value, without its tag.
pub open spec fn value_wire(v: AttrView) -> Seq<u8> {
    match v {
        AttrView::Str(s) => bytes_wire(encode_utf8(s)),
        AttrView::Int(i) => spec_u64_to_le_bytes(i as u64),
        AttrView::Float(f) => spec_u64_to_le_bytes(f),
        AttrView::Bool(b) => if b {
            seq![1u8]
        } else {
            seq![0u8]
        },
        AttrView::UInt(u) => spec_u64_to_le_bytes(u),
        AttrView::Bytes(b) => bytes_wire(b),
        AttrView::TimestampNs(t) => spec_u64_to_le_bytes(t as u64),
        AttrView::Null => Seq::empty(),
    }
}

/// One attribute: name, type tag, value.
pub open spec fn attr_wire() -> spec_fn((Seq<char>, AttrView)) -> Seq<u8> {
    |a: (Seq<char>, AttrView)|
        bytes_wire(encode_utf8(a.0)) + seq![types::type_tag(a.1)] + value_wire(a.1)
}

/// Attributes: the count, then each in order.
pub open spec fn attrs_wire(attrs: Seq<(Seq<char>, AttrView)>) -> Seq<u8> {
    varint::varint(attrs.len()) + list_wire(attrs, attr_wire())
}

/// One novel piece: identity, then bytes.
pub open spec fn piece_wire() -> spec_fn((Seq<u8>, Seq<u8>)) -> Seq<u8> {
    |p: (Seq<u8>, Seq<u8>)| p.0 + bytes_wire(p.1)
}

/// Novel pieces: the count, then each in order.
pub open spec fn novel_wire(novel: Seq<(Seq<u8>, Seq<u8>)>) -> Seq<u8> {
    varint::varint(novel.len()) + list_wire(novel, piece_wire())
}

/// One content value: name, identity, program.
pub open spec fn content_wire() -> spec_fn(ContentView) -> Seq<u8> {
    |c: ContentView| bytes_wire(encode_utf8(c.name)) + c.identity->0 + ops_wire(c.ops)
}

/// A record payload. `r.contents` is in canonical order.
pub open spec fn record_wire(r: RecordView, novel: Seq<(Seq<u8>, Seq<u8>)>) -> Seq<u8> {
    bytes_wire(encode_utf8(r.id)) + varint::varint(r.contents.len()) + list_wire(
        r.contents,
        content_wire(),
    ) + attrs_wire(r.attrs) + novel_wire(novel)
}

// ---------------------------------------------------------------------------------------------
// What the reader makes of bytes: a value and the position behind it, or the first fault.
// ---------------------------------------------------------------------------------------------
/// A variable-length integer at `at`.
pub open spec fn read_count(b: Seq<u8>, at: int) -> Result<(nat, int), WireError> {
    match varint::read_varint(b.skip(at), 0) {
        Ok((n, used)) => Ok((n, at + used)),
        Err(e) => Err(WireError::Varint(e)),
    }
}

/// A variable-length integer at `at` that must fit the address space.
pub open spec fn read_size(b: Seq<u8>, at: int) -> Result<(nat, int), WireError> {
    match read_count(b, at) {
        Ok((n, p)) => if n > usize::MAX {
            Err(WireError::TooLarge)
        } else {
            Ok((n, p))
        },
        Err(e) => Err(e),
    }
}

/// A byte string at `at`.
pub open spec fn read_bytes(b: Seq<u8>, at: int) -> Result<(Seq<u8>, int), WireError> {
    match read_size(b, at) {
        Ok((n, p)) => if n > b.len() - p {
            Err(WireError::ByteStringPastFrame)
        } else {
            Ok((b.subrange(p, p + n), p + n))
        },
        Err(e) => Err(e),
    }
}

/// `n` bytes at `at`.
pub open spec fn read_fixed(b: Seq<u8>, at: int, n: nat) -> Result<(Seq<u8>, int), WireError> {
    if n > b.len() - at {
        Err(WireError::FieldPastFrame)
    } else {
        Ok((b.subrange(at, at + n), at + n))
    }
}

/// UTF-8 text at `at`.
pub open spec fn read_text(b: Seq<u8>, at: int) -> Result<(Seq<char>, int), WireError> {
    match read_bytes(b, at) {
        Ok((s, p)) => if valid_utf8(s) {
            Ok((decode_utf8(s), p))
        } else {
            Err(WireError::NotUtf8)
        },
        Err(e) => Err(e),
    }
}

/// `n` elements at `at`.
pub open spec fn read_list<T>(
    b: Seq<u8>,
    at: int,
    n: nat,
    item: spec_fn(Seq<u8>, int) -> Result<(T, int), WireError>,
) -> Result<(Seq<T>, int), WireError>
    decreases n,
{
    if n == 0 {
        Ok((Seq::empty(), at))
    } else {
        match item(b, at) {
            Ok((x, p)) => match read_list(b, p, (n - 1) as nat, item) {
                Ok((rest, q)) => Ok((seq![x] + rest, q)),
                Err(e) => Err(e),
            },
            Err(e) => Err(e),
        }
    }
}

/// One content operation at `at`.
pub open spec fn read_op() -> spec_fn(Seq<u8>, int) -> Result<(OpView, int), WireError> {
    |b: Seq<u8>, at: int|
        {
            if at >= b.len() {
                Err(WireError::TruncatedOp)
            } else if b[at] == 0 {
                match read_bytes(b, at + 1) {
                    Ok((s, p)) => Ok((OpView::Lit(s), p)),
                    Err(e) => Err(e),
                }
            } else if b[at] == 1 {
                match read_fixed(b, at + 1, 32) {
                    Ok((h, p)) => match read_count(b, p) {
                        Ok((n, q)) => if n > u32::MAX {
                            Err(WireError::PieceTooLong)
                        } else if n == 0 {
                            Err(WireError::ZeroPiece)
                        } else {
                            Ok((OpView::Piece { hash: h, len: n as u32 }, q))
                        },
                        Err(e) => Err(e),
                    },
                    Err(e) => Err(e),
                }
            } else {
                Err(WireError::UnknownOpTag)
            }
        }
}

/// A program at `at`.
pub open spec fn read_ops(b: Seq<u8>, at: int) -> Result<(Seq<OpView>, int), WireError> {
    match read_size(b, at) {
        Ok((n, p)) => read_list(b, p, n, read_op()),
        Err(e) => Err(e),
    }
}

/// An attribute's value at `at`, by its tag.
pub open spec fn read_value(b: Seq<u8>, at: int, tag: u8) -> Result<(AttrView, int), WireError> {
    if tag == 0 {
        match read_text(b, at) {
            Ok((s, p)) => Ok((AttrView::Str(s), p)),
            Err(e) => Err(e),
        }
    } else if tag == 1 || tag == 2 || tag == 4 || tag == 6 {
        match read_fixed(b, at, 8) {
            Ok((s, p)) => {
                let v = spec_u64_from_le_bytes(s);
                Ok(
                    (
                        if tag == 1 {
                            AttrView::Int(v as i64)
                        } else if tag == 2 {
                            AttrView::Float(v)
                        } else if tag == 4 {
                            AttrView::UInt(v)
                        } else {
                            AttrView::TimestampNs(v as i64)
                        },
                        p,
                    ),
                )
            },
            Err(e) => Err(e),
        }
    } else if tag == 3 {
        match read_fixed(b, at, 1) {
            Ok((s, p)) => if s[0] == 0 {
                Ok((AttrView::Bool(false), p))
            } else if s[0] == 1 {
                Ok((AttrView::Bool(true), p))
            } else {
                Err(WireError::InvalidBool)
            },
            Err(e) => Err(e),
        }
    } else if tag == 5 {
        match read_bytes(b, at) {
            Ok((s, p)) => Ok((AttrView::Bytes(s), p)),
            Err(e) => Err(e),
        }
    } else if tag == 7 {
        Ok((AttrView::Null, at))
    } else {
        Err(WireError::UnknownAttrTag)
    }
}

/// One attribute at `at`.
pub open spec fn read_attr() -> spec_fn(Seq<u8>, int) -> Result<
    ((Seq<char>, AttrView), int),
    WireError,
> {
    |b: Seq<u8>, at: int|
        match read_text(b, at) {
            Ok((key, p)) => if key.len() == 0 {
                Err(WireError::EmptyAttrName)
            } else if p >= b.len() {
                Err(WireError::TruncatedAttr)
            } else {
                match read_value(b, p + 1, b[p]) {
                    Ok((v, q)) => Ok(((key, v), q)),
                    Err(e) => Err(e),
                }
            },
            Err(e) => Err(e),
        }
}

/// Attributes at `at`.
pub open spec fn read_attrs(b: Seq<u8>, at: int) -> Result<
    (Seq<(Seq<char>, AttrView)>, int),
    WireError,
> {
    match read_size(b, at) {
        Ok((n, p)) => read_list(b, p, n, read_attr()),
        Err(e) => Err(e),
    }
}

/// One novel piece at `at`: bytes that have the identity before them.
pub open spec fn read_piece() -> spec_fn(Seq<u8>, int) -> Result<
    ((Seq<u8>, Seq<u8>), int),
    WireError,
> {
    |b: Seq<u8>, at: int|
        match read_fixed(b, at, 32) {
            Ok((h, p)) => match read_bytes(b, p) {
                Ok((s, q)) => if s.len() == 0 {
                    Err(WireError::EmptyNovel)
                } else if hash::blake3_digest(s) != h {
                    Err(WireError::NovelMismatch)
                } else {
                    Ok(((h, s), q))
                },
                Err(e) => Err(e),
            },
            Err(e) => Err(e),
        }
}

/// Novel pieces at `at`.
pub open spec fn read_novel(b: Seq<u8>, at: int) -> Result<
    (Seq<(Seq<u8>, Seq<u8>)>, int),
    WireError,
> {
    match read_size(b, at) {
        Ok((n, p)) => read_list(b, p, n, read_piece()),
        Err(e) => Err(e),
    }
}

/// One content value at `at`, whose name must follow `previous`.
pub open spec fn read_content(b: Seq<u8>, at: int, previous: Option<Seq<u8>>) -> Result<
    (ContentView, Seq<u8>, int),
    WireError,
> {
    match read_bytes(b, at) {
        Ok((name, p)) => if previous is Some && !bytes::lex_lt(previous->0, name) {
            Err(WireError::ContentOrder)
        } else if !valid_utf8(name) {
            Err(WireError::NotUtf8)
        } else {
            match read_fixed(b, p, 32) {
                Ok((digest, q)) => match read_ops(b, q) {
                    Ok((ops, r)) => Ok(
                        (
                            ContentView {
                                name: decode_utf8(name),
                                ops,
                                identity: Some(digest),
                            },
                            name,
                            r,
                        ),
                    ),
                    Err(e) => Err(e),
                },
                Err(e) => Err(e),
            }
        },
        Err(e) => Err(e),
    }
}

/// `n` content values at `at`, in strictly ascending name order.
pub open spec fn read_contents(b: Seq<u8>, at: int, n: nat, previous: Option<Seq<u8>>) -> Result<
    (Seq<ContentView>, int),
    WireError,
>
    decreases n,
{
    if n == 0 {
        Ok((Seq::empty(), at))
    } else {
        match read_content(b, at, previous) {
            Ok((c, name, p)) => match read_contents(b, p, (n - 1) as nat, Some(name)) {
                Ok((rest, q)) => Ok((seq![c] + rest, q)),
                Err(e) => Err(e),
            },
            Err(e) => Err(e),
        }
    }
}

// ---------------------------------------------------------------------------------------------
// Identities a frame can settle by itself.
// ---------------------------------------------------------------------------------------------
/// The bytes the first novel piece of that identity carries.
pub open spec fn find_novel(novel: Seq<(Seq<u8>, Seq<u8>)>, h: Seq<u8>) -> Option<Seq<u8>>
    decreases novel.len(),
{
    if novel.len() == 0 {
        None
    } else if novel[0].0 == h {
        Some(novel[0].1)
    } else {
        find_novel(novel.drop_first(), h)
    }
}

/// No two novel pieces have the same identity.
pub open spec fn novel_distinct(novel: Seq<(Seq<u8>, Seq<u8>)>) -> bool {
    forall|i: int, j: int|
        0 <= i < j < novel.len() ==> (#[trigger] novel[i]).0 != (#[trigger] novel[j]).0
}

/// The bytes a program yields from novel pieces alone: `None` where it refers to a piece the
/// frame does not carry.
pub open spec fn local_bytes(ops: Seq<OpView>, novel: Seq<(Seq<u8>, Seq<u8>)>) -> Result<
    Option<Seq<u8>>,
    WireError,
>
    decreases ops.len(),
{
    if ops.len() == 0 {
        Ok(Some(Seq::empty()))
    } else {
        match local_bytes(ops.drop_last(), novel) {
            Err(e) => Err(e),
            Ok(so_far) => match ops.last() {
                OpView::Lit(b) => Ok(
                    match so_far {
                        Some(s) => Some(s + b),
                        None => None,
                    },
                ),
                OpView::Piece { hash, len } => match find_novel(novel, hash) {
                    None => Ok(None),
                    Some(piece) => if piece.len() != len {
                        Err(WireError::PieceLength)
                    } else {
                        Ok(
                            match so_far {
                                Some(s) => Some(s + piece),
                                None => None,
                            },
                        )
                    },
                },
            },
        }
    }
}

/// What is wrong with one content value, judged from the frame alone.
pub open spec fn content_fault(c: ContentView, novel: Seq<(Seq<u8>, Seq<u8>)>) -> Option<
    WireError,
> {
    match local_bytes(c.ops, novel) {
        Err(e) => Some(e),
        Ok(None) => None,
        Ok(Some(s)) => match c.identity {
            None => Some(WireError::MissingIdentity),
            Some(declared) => if hash::blake3_digest(s) != declared {
                Some(WireError::IdentityMismatch)
            } else {
                None
            },
        },
    }
}

/// The first fault among contents.
pub open spec fn contents_local_fault(
    contents: Seq<ContentView>,
    novel: Seq<(Seq<u8>, Seq<u8>)>,
) -> Option<WireError>
    decreases contents.len(),
{
    if contents.len() == 0 {
        None
    } else {
        match content_fault(contents[0], novel) {
            Some(e) => Some(e),
            None => contents_local_fault(contents.drop_first(), novel),
        }
    }
}

/// What is wrong with a record's identities, judged from its own frame.
pub open spec fn local_fault(
    contents: Seq<ContentView>,
    novel: Seq<(Seq<u8>, Seq<u8>)>,
) -> Option<WireError> {
    if !novel_distinct(novel) {
        Some(WireError::DuplicateNovel)
    } else {
        contents_local_fault(contents, novel)
    }
}

/// What a payload decodes to.
pub open spec fn read_record(b: Seq<u8>) -> Result<
    (RecordView, Seq<(Seq<u8>, Seq<u8>)>),
    WireError,
> {
    match read_text(b, 0) {
        Err(e) => Err(e),
        Ok((id, p)) => match read_size(b, p) {
            Err(e) => Err(e),
            Ok((n, q)) => match read_contents(b, q, n, None) {
                Err(e) => Err(e),
                Ok((contents, r)) => match read_attrs(b, r) {
                    Err(e) => Err(e),
                    Ok((attrs, s)) => match read_novel(b, s) {
                        Err(e) => Err(e),
                        Ok((novel, t)) => if t != b.len() {
                            Err(WireError::TrailingBytes)
                        } else if id.len() == 0 {
                            Err(WireError::Record(RecordError::EmptyId))
                        } else {
                            match types::contents_fault(contents) {
                                Some(e) => Err(WireError::Record(e)),
                                None => match local_fault(contents, novel) {
                                    Some(e) => Err(e),
                                    None => Ok((RecordView { id, contents, attrs }, novel)),
                                },
                            }
                        },
                    },
                },
            },
        },
    }
}

// ---------------------------------------------------------------------------------------------
// Writing.
// ---------------------------------------------------------------------------------------------
/// Append a byte string.
pub fn put_bytes(out: &mut Vec<u8>, b: &[u8])
    ensures
        final(out)@ == old(out)@ + bytes_wire(b@),
{
    let ghost before = out@;
    varint::put_varint(out, b.len() as u64);
    bytes::append_bytes(out, b);
    assert(out@ =~= before + bytes_wire(b@));
}

fn put_op(out: &mut Vec<u8>, op: &ContentOp)
    ensures
        final(out)@ == old(out)@ + op_wire()(op@),
{
    let ghost before = out@;
    match op {
        ContentOp::Lit(b) => {
            out.push(0);
            put_bytes(out, b.as_slice());
        },
        ContentOp::Piece { hash, len } => {
            out.push(1);
            bytes::append_bytes(out, vstd::array::array_as_slice(&hash.0));
            varint::put_varint(out, *len as u64);
        },
    }
    assert(out@ =~= before + op_wire()(op@));
}

/// Append a program.
pub fn put_ops(out: &mut Vec<u8>, ops: &[ContentOp])
    ensures
        final(out)@ == old(out)@ + ops_wire(types::ops_view(ops@)),
{
    let ghost before = out@;
    let ghost all = types::ops_view(ops@);
    varint::put_varint(out, ops.len() as u64);
    let mut i: usize = 0;
    assert(all.skip(0) =~= all);
    assert(before + ops_wire(all) =~= out@ + list_wire(all.skip(0), op_wire()));
    while i < ops.len()
        invariant
            i <= ops@.len(),
            all == types::ops_view(ops@),
            before + ops_wire(all) == out@ + list_wire(all.skip(i as int), op_wire()),
        decreases ops.len() - i,
    {
        let ghost mid = out@;
        put_op(out, &ops[i]);
        proof {
            let tail = all.skip(i as int);
            assert(tail[0] == ops@[i as int]@);
            assert(tail.drop_first() =~= all.skip(i + 1));
            assert(mid + list_wire(tail, op_wire()) =~= out@ + list_wire(
                all.skip(i + 1),
                op_wire(),
            ));
        }
        i = i + 1;
    }
    assert(all.skip(i as int) =~= Seq::<OpView>::empty());
    assert(out@ + list_wire(all.skip(i as int), op_wire()) =~= out@);
}

fn put_attr(out: &mut Vec<u8>, key: &String, value: &AttrValue)
    ensures
        final(out)@ == old(out)@ + attr_wire()((key@, value@)),
{
    let ghost before = out@;
    put_bytes(out, key.as_str().as_bytes());
    out.push(value.type_tag());
    let ghost mid = out@;
    match value {
        AttrValue::Str(s) => put_bytes(out, s.as_str().as_bytes()),
        AttrValue::Int(i) => {
            let le = u64_to_le_bytes(*i as u64);
            bytes::append_bytes(out, le.as_slice());
        },
        AttrValue::Float(f) => {
            let le = u64_to_le_bytes(*f);
            bytes::append_bytes(out, le.as_slice());
        },
        AttrValue::Bool(b) => out.push(
            if *b {
                1
            } else {
                0
            },
        ),
        AttrValue::UInt(u) => {
            let le = u64_to_le_bytes(*u);
            bytes::append_bytes(out, le.as_slice());
        },
        AttrValue::Bytes(b) => put_bytes(out, b.as_slice()),
        AttrValue::TimestampNs(t) => {
            let le = u64_to_le_bytes(*t as u64);
            bytes::append_bytes(out, le.as_slice());
        },
        AttrValue::Null => {},
    }
    assert(out@ =~= mid + value_wire(value@));
    assert(out@ =~= before + attr_wire()((key@, value@)));
}

/// Append attributes.
pub fn put_attrs(out: &mut Vec<u8>, attrs: &[(String, AttrValue)])
    ensures
        final(out)@ == old(out)@ + attrs_wire(types::attrs_view(attrs@)),
{
    let ghost before = out@;
    let ghost all = types::attrs_view(attrs@);
    varint::put_varint(out, attrs.len() as u64);
    let mut i: usize = 0;
    assert(all.skip(0) =~= all);
    assert(before + attrs_wire(all) =~= out@ + list_wire(all.skip(0), attr_wire()));
    while i < attrs.len()
        invariant
            i <= attrs@.len(),
            all == types::attrs_view(attrs@),
            before + attrs_wire(all) == out@ + list_wire(all.skip(i as int), attr_wire()),
        decreases attrs.len() - i,
    {
        let ghost mid = out@;
        put_attr(out, &attrs[i].0, &attrs[i].1);
        proof {
            let tail = all.skip(i as int);
            assert(tail[0] == (attrs@[i as int].0@, attrs@[i as int].1@));
            assert(tail.drop_first() =~= all.skip(i + 1));
            assert(mid + list_wire(tail, attr_wire()) =~= out@ + list_wire(
                all.skip(i + 1),
                attr_wire(),
            ));
        }
        i = i + 1;
    }
    assert(all.skip(i as int) =~= Seq::<(Seq<char>, AttrView)>::empty());
    assert(out@ + list_wire(all.skip(i as int), attr_wire()) =~= out@);
}

/// Append novel pieces.
pub fn put_novel(out: &mut Vec<u8>, novel: &[(PieceHash, Vec<u8>)])
    ensures
        final(out)@ == old(out)@ + novel_wire(novel_view(novel@)),
{
    let ghost before = out@;
    let ghost all = novel_view(novel@);
    varint::put_varint(out, novel.len() as u64);
    let mut i: usize = 0;
    assert(all.skip(0) =~= all);
    assert(before + novel_wire(all) =~= out@ + list_wire(all.skip(0), piece_wire()));
    while i < novel.len()
        invariant
            i <= novel@.len(),
            all == novel_view(novel@),
            before + novel_wire(all) == out@ + list_wire(all.skip(i as int), piece_wire()),
        decreases novel.len() - i,
    {
        let ghost mid = out@;
        bytes::append_bytes(out, vstd::array::array_as_slice(&novel[i].0.0));
        put_bytes(out, novel[i].1.as_slice());
        proof {
            let tail = all.skip(i as int);
            assert(tail[0] == (novel@[i as int].0@, novel@[i as int].1@));
            assert(tail.drop_first() =~= all.skip(i + 1));
            assert(mid + list_wire(tail, piece_wire()) =~= out@ + list_wire(
                all.skip(i + 1),
                piece_wire(),
            ));
        }
        i = i + 1;
    }
    assert(all.skip(i as int) =~= Seq::<(Seq<u8>, Seq<u8>)>::empty());
    assert(out@ + list_wire(all.skip(i as int), piece_wire()) =~= out@);
}

// ---------------------------------------------------------------------------------------------
// Reading.
// ---------------------------------------------------------------------------------------------
/// Continue a list whose front was already read.
pub open spec fn resumed<T>(
    done: Seq<T>,
    rest: Result<(Seq<T>, int), WireError>,
) -> Result<(Seq<T>, int), WireError> {
    match rest {
        Ok((tail, p)) => Ok((done + tail, p)),
        Err(e) => Err(e),
    }
}

fn get_count(b: &[u8], at: &mut usize) -> (r: Result<u64, WireError>)
    requires
        *old(at) <= b@.len(),
    ensures
        *final(at) <= b@.len(),
        match r {
            Ok(n) => read_count(b@, *old(at) as int) == Ok::<(nat, int), WireError>(
                (n as nat, *final(at) as int),
            ),
            Err(e) => read_count(b@, *old(at) as int) == Err::<(nat, int), WireError>(e),
        },
{
    match varint::get_varint(b, at) {
        Ok(n) => Ok(n),
        Err(e) => Err(WireError::Varint(e)),
    }
}

fn get_size(b: &[u8], at: &mut usize) -> (r: Result<usize, WireError>)
    requires
        *old(at) <= b@.len(),
    ensures
        *final(at) <= b@.len(),
        match r {
            Ok(n) => read_size(b@, *old(at) as int) == Ok::<(nat, int), WireError>(
                (n as nat, *final(at) as int),
            ),
            Err(e) => read_size(b@, *old(at) as int) == Err::<(nat, int), WireError>(e),
        },
{
    match get_count(b, at) {
        Ok(n) => if n > usize::MAX as u64 {
            Err(WireError::TooLarge)
        } else {
            Ok(n as usize)
        },
        Err(e) => Err(e),
    }
}

/// Read a byte string at `*at`, moving `*at` behind it.
pub fn get_bytes<'a>(b: &'a [u8], at: &mut usize) -> (r: Result<&'a [u8], WireError>)
    requires
        *old(at) <= b@.len(),
    ensures
        *final(at) <= b@.len(),
        match r {
            Ok(s) => read_bytes(b@, *old(at) as int) == Ok::<(Seq<u8>, int), WireError>(
                (s@, *final(at) as int),
            ),
            Err(e) => read_bytes(b@, *old(at) as int) == Err::<(Seq<u8>, int), WireError>(e),
        },
{
    match get_size(b, at) {
        Ok(n) => {
            if n > b.len() - *at {
                return Err(WireError::ByteStringPastFrame);
            }
            let s = slice_subrange(b, *at, *at + n);
            *at = *at + n;
            Ok(s)
        },
        Err(e) => Err(e),
    }
}

/// Read `n` bytes at `*at`, moving `*at` behind them.
pub fn take<'a>(b: &'a [u8], at: &mut usize, n: usize) -> (r: Result<&'a [u8], WireError>)
    requires
        *old(at) <= b@.len(),
    ensures
        *final(at) <= b@.len(),
        match r {
            Ok(s) => read_fixed(b@, *old(at) as int, n as nat) == Ok::<(Seq<u8>, int), WireError>(
                (s@, *final(at) as int),
            ),
            Err(e) => read_fixed(b@, *old(at) as int, n as nat) == Err::<
                (Seq<u8>, int),
                WireError,
            >(e),
        },
{
    if n > b.len() - *at {
        return Err(WireError::FieldPastFrame);
    }
    let s = slice_subrange(b, *at, *at + n);
    *at = *at + n;
    Ok(s)
}

fn get_text(b: &[u8], at: &mut usize) -> (r: Result<String, WireError>)
    requires
        *old(at) <= b@.len(),
    ensures
        *final(at) <= b@.len(),
        match r {
            Ok(s) => read_text(b@, *old(at) as int) == Ok::<(Seq<char>, int), WireError>(
                (s@, *final(at) as int),
            ),
            Err(e) => read_text(b@, *old(at) as int) == Err::<(Seq<char>, int), WireError>(e),
        },
{
    match get_bytes(b, at) {
        Ok(s) => match bytes::utf8_text(s) {
            Some(t) => {
                proof {
                    encode_utf8_decode_utf8(t@);
                }
                Ok(t)
            },
            None => Err(WireError::NotUtf8),
        },
        Err(e) => Err(e),
    }
}

fn get_digest(b: &[u8], at: &mut usize) -> (r: Result<[u8; 32], WireError>)
    requires
        *old(at) <= b@.len(),
    ensures
        *final(at) <= b@.len(),
        match r {
            Ok(h) => read_fixed(b@, *old(at) as int, 32) == Ok::<(Seq<u8>, int), WireError>(
                (h@, *final(at) as int),
            ),
            Err(e) => read_fixed(b@, *old(at) as int, 32) == Err::<(Seq<u8>, int), WireError>(e),
        },
{
    match take(b, at, 32) {
        Ok(s) => {
            let mut h: [u8; 32] = [0;32];
            let mut i: usize = 0;
            while i < 32
                invariant
                    i <= 32,
                    s@.len() == 32,
                    forall|j: int| 0 <= j < i ==> h@[j] == s@[j],
                decreases 32 - i,
            {
                h[i] = s[i];
                i = i + 1;
            }
            assert(h@ =~= s@);
            Ok(h)
        },
        Err(e) => Err(e),
    }
}

fn get_op(b: &[u8], at: &mut usize) -> (r: Result<ContentOp, WireError>)
    requires
        *old(at) <= b@.len(),
    ensures
        *final(at) <= b@.len(),
        match r {
            Ok(op) => read_op()(b@, *old(at) as int) == Ok::<(OpView, int), WireError>(
                (op@, *final(at) as int),
            ),
            Err(e) => read_op()(b@, *old(at) as int) == Err::<(OpView, int), WireError>(e),
        },
{
    if *at >= b.len() {
        return Err(WireError::TruncatedOp);
    }
    let tag: u8 = b[*at];
    *at = *at + 1;
    if tag == 0 {
        match get_bytes(b, at) {
            Ok(s) => Ok(ContentOp::Lit(vstd::slice::slice_to_vec(s))),
            Err(e) => Err(e),
        }
    } else if tag == 1 {
        match get_digest(b, at) {
            Ok(h) => match get_count(b, at) {
                Ok(n) => if n > u32::MAX as u64 {
                    Err(WireError::PieceTooLong)
                } else if n == 0 {
                    Err(WireError::ZeroPiece)
                } else {
                    Ok(ContentOp::Piece { hash: PieceHash(h), len: n as u32 })
                },
                Err(e) => Err(e),
            },
            Err(e) => Err(e),
        }
    } else {
        Err(WireError::UnknownOpTag)
    }
}

/// Read a program at `*at`.
pub fn get_ops(b: &[u8], at: &mut usize) -> (r: Result<Vec<ContentOp>, WireError>)
    requires
        *old(at) <= b@.len(),
    ensures
        *final(at) <= b@.len(),
        match r {
            Ok(ops) => read_ops(b@, *old(at) as int) == Ok::<(Seq<OpView>, int), WireError>(
                (types::ops_view(ops@), *final(at) as int),
            ),
            Err(e) => read_ops(b@, *old(at) as int) == Err::<(Seq<OpView>, int), WireError>(e),
        },
{
    let n: usize = match get_size(b, at) {
        Ok(n) => n,
        Err(e) => {
            return Err(e);
        },
    };
    let ghost start = *at as int;
    let mut ops: Vec<ContentOp> = Vec::new();
    let mut i: usize = 0;
    let ghost whole = read_list(b@, start, n as nat, read_op());
    proof {
        assert(types::ops_view(ops@) =~= Seq::<OpView>::empty());
        if whole is Ok {
            assert(Seq::<OpView>::empty() + whole->Ok_0.0 =~= whole->Ok_0.0);
        }
    }
    while i < n
        invariant
            i <= n,
            *at <= b@.len(),
            whole == read_ops(b@, *old(at) as int),
            whole == resumed(
                types::ops_view(ops@),
                read_list(b@, *at as int, (n - i) as nat, read_op()),
            ),
        decreases n - i,
    {
        let ghost done = types::ops_view(ops@);
        match get_op(b, at) {
            Ok(op) => {
                let ghost v = op@;
                ops.push(op);
                proof {
                    assert(types::ops_view(ops@) =~= done.push(v));
                    let rest = read_list(b@, *at as int, (n - i - 1) as nat, read_op());
                    if rest is Ok {
                        assert(done + (seq![v] + rest->Ok_0.0) =~= done.push(v) + rest->Ok_0.0);
                    }
                }
            },
            Err(e) => {
                return Err(e);
            },
        }
        i = i + 1;
    }
    assert(types::ops_view(ops@) + Seq::<OpView>::empty() =~= types::ops_view(ops@));
    Ok(ops)
}

fn get_u64(b: &[u8], at: &mut usize) -> (r: Result<u64, WireError>)
    requires
        *old(at) <= b@.len(),
    ensures
        *final(at) <= b@.len(),
        match r {
            Ok(v) => {
                &&& read_fixed(b@, *old(at) as int, 8) is Ok
                &&& read_fixed(b@, *old(at) as int, 8)->Ok_0.1 == *final(at)
                &&& v == spec_u64_from_le_bytes(read_fixed(b@, *old(at) as int, 8)->Ok_0.0)
            },
            Err(e) => read_fixed(b@, *old(at) as int, 8) == Err::<(Seq<u8>, int), WireError>(e),
        },
{
    match take(b, at, 8) {
        Ok(s) => Ok(u64_from_le_bytes(s)),
        Err(e) => Err(e),
    }
}

fn get_value(b: &[u8], at: &mut usize, tag: u8) -> (r: Result<AttrValue, WireError>)
    requires
        *old(at) <= b@.len(),
    ensures
        *final(at) <= b@.len(),
        match r {
            Ok(v) => read_value(b@, *old(at) as int, tag) == Ok::<(AttrView, int), WireError>(
                (v@, *final(at) as int),
            ),
            Err(e) => read_value(b@, *old(at) as int, tag) == Err::<(AttrView, int), WireError>(e),
        },
{
    if tag == 0 {
        match get_text(b, at) {
            Ok(s) => Ok(AttrValue::Str(s)),
            Err(e) => Err(e),
        }
    } else if tag == 1 {
        match get_u64(b, at) {
            Ok(v) => Ok(AttrValue::Int(v as i64)),
            Err(e) => Err(e),
        }
    } else if tag == 2 {
        match get_u64(b, at) {
            Ok(v) => Ok(AttrValue::Float(v)),
            Err(e) => Err(e),
        }
    } else if tag == 3 {
        match take(b, at, 1) {
            Ok(s) => if s[0] == 0 {
                Ok(AttrValue::Bool(false))
            } else if s[0] == 1 {
                Ok(AttrValue::Bool(true))
            } else {
                Err(WireError::InvalidBool)
            },
            Err(e) => Err(e),
        }
    } else if tag == 4 {
        match get_u64(b, at) {
            Ok(v) => Ok(AttrValue::UInt(v)),
            Err(e) => Err(e),
        }
    } else if tag == 5 {
        match get_bytes(b, at) {
            Ok(s) => Ok(AttrValue::Bytes(vstd::slice::slice_to_vec(s))),
            Err(e) => Err(e),
        }
    } else if tag == 6 {
        match get_u64(b, at) {
            Ok(v) => Ok(AttrValue::TimestampNs(v as i64)),
            Err(e) => Err(e),
        }
    } else if tag == 7 {
        Ok(AttrValue::Null)
    } else {
        Err(WireError::UnknownAttrTag)
    }
}

fn get_attr(b: &[u8], at: &mut usize) -> (r: Result<(String, AttrValue), WireError>)
    requires
        *old(at) <= b@.len(),
    ensures
        *final(at) <= b@.len(),
        match r {
            Ok(a) => read_attr()(b@, *old(at) as int) == Ok::<
                ((Seq<char>, AttrView), int),
                WireError,
            >(((a.0@, a.1@), *final(at) as int)),
            Err(e) => read_attr()(b@, *old(at) as int) == Err::<
                ((Seq<char>, AttrView), int),
                WireError,
            >(e),
        },
{
    match get_text(b, at) {
        Ok(key) => {
            if key.as_str().is_empty() {
                return Err(WireError::EmptyAttrName);
            }
            if *at >= b.len() {
                return Err(WireError::TruncatedAttr);
            }
            let tag: u8 = b[*at];
            *at = *at + 1;
            match get_value(b, at, tag) {
                Ok(v) => Ok((key, v)),
                Err(e) => Err(e),
            }
        },
        Err(e) => Err(e),
    }
}

/// Read attributes at `*at`.
pub fn get_attrs(b: &[u8], at: &mut usize) -> (r: Result<Vec<(String, AttrValue)>, WireError>)
    requires
        *old(at) <= b@.len(),
    ensures
        *final(at) <= b@.len(),
        match r {
            Ok(attrs) => read_attrs(b@, *old(at) as int) == Ok::<
                (Seq<(Seq<char>, AttrView)>, int),
                WireError,
            >((types::attrs_view(attrs@), *final(at) as int)),
            Err(e) => read_attrs(b@, *old(at) as int) == Err::<
                (Seq<(Seq<char>, AttrView)>, int),
                WireError,
            >(e),
        },
{
    let n: usize = match get_size(b, at) {
        Ok(n) => n,
        Err(e) => {
            return Err(e);
        },
    };
    let ghost start = *at as int;
    let mut attrs: Vec<(String, AttrValue)> = Vec::new();
    let mut i: usize = 0;
    let ghost whole = read_list(b@, start, n as nat, read_attr());
    proof {
        assert(types::attrs_view(attrs@) =~= Seq::<(Seq<char>, AttrView)>::empty());
        if whole is Ok {
            assert(Seq::<(Seq<char>, AttrView)>::empty() + whole->Ok_0.0 =~= whole->Ok_0.0);
        }
    }
    while i < n
        invariant
            i <= n,
            *at <= b@.len(),
            whole == read_attrs(b@, *old(at) as int),
            whole == resumed(
                types::attrs_view(attrs@),
                read_list(b@, *at as int, (n - i) as nat, read_attr()),
            ),
        decreases n - i,
    {
        let ghost done = types::attrs_view(attrs@);
        match get_attr(b, at) {
            Ok(a) => {
                let ghost v = (a.0@, a.1@);
                attrs.push(a);
                proof {
                    assert(types::attrs_view(attrs@) =~= done.push(v));
                    let rest = read_list(b@, *at as int, (n - i - 1) as nat, read_attr());
                    if rest is Ok {
                        assert(done + (seq![v] + rest->Ok_0.0) =~= done.push(v) + rest->Ok_0.0);
                    }
                }
            },
            Err(e) => {
                return Err(e);
            },
        }
        i = i + 1;
    }
    assert(types::attrs_view(attrs@) + Seq::<(Seq<char>, AttrView)>::empty()
        =~= types::attrs_view(attrs@));
    Ok(attrs)
}

fn get_piece(b: &[u8], at: &mut usize) -> (r: Result<(PieceHash, Vec<u8>), WireError>)
    requires
        *old(at) <= b@.len(),
    ensures
        *final(at) <= b@.len(),
        match r {
            Ok(p) => read_piece()(b@, *old(at) as int) == Ok::<
                ((Seq<u8>, Seq<u8>), int),
                WireError,
            >(((p.0@, p.1@), *final(at) as int)),
            Err(e) => read_piece()(b@, *old(at) as int) == Err::<
                ((Seq<u8>, Seq<u8>), int),
                WireError,
            >(e),
        },
{
    match get_digest(b, at) {
        Ok(h) => match get_bytes(b, at) {
            Ok(s) => {
                if s.len() == 0 {
                    return Err(WireError::EmptyNovel);
                }
                let hash = PieceHash(h);
                if !PieceHash::of(s).same(&hash) {
                    return Err(WireError::NovelMismatch);
                }
                Ok((hash, vstd::slice::slice_to_vec(s)))
            },
            Err(e) => Err(e),
        },
        Err(e) => Err(e),
    }
}

/// Read novel pieces at `*at`.
pub fn get_novel(b: &[u8], at: &mut usize) -> (r: Result<Vec<(PieceHash, Vec<u8>)>, WireError>)
    requires
        *old(at) <= b@.len(),
    ensures
        *final(at) <= b@.len(),
        match r {
            Ok(novel) => read_novel(b@, *old(at) as int) == Ok::<
                (Seq<(Seq<u8>, Seq<u8>)>, int),
                WireError,
            >((novel_view(novel@), *final(at) as int)),
            Err(e) => read_novel(b@, *old(at) as int) == Err::<
                (Seq<(Seq<u8>, Seq<u8>)>, int),
                WireError,
            >(e),
        },
{
    let n: usize = match get_size(b, at) {
        Ok(n) => n,
        Err(e) => {
            return Err(e);
        },
    };
    let ghost start = *at as int;
    let mut novel: Vec<(PieceHash, Vec<u8>)> = Vec::new();
    let mut i: usize = 0;
    let ghost whole = read_list(b@, start, n as nat, read_piece());
    proof {
        assert(novel_view(novel@) =~= Seq::<(Seq<u8>, Seq<u8>)>::empty());
        if whole is Ok {
            assert(Seq::<(Seq<u8>, Seq<u8>)>::empty() + whole->Ok_0.0 =~= whole->Ok_0.0);
        }
    }
    while i < n
        invariant
            i <= n,
            *at <= b@.len(),
            whole == read_novel(b@, *old(at) as int),
            whole == resumed(
                novel_view(novel@),
                read_list(b@, *at as int, (n - i) as nat, read_piece()),
            ),
        decreases n - i,
    {
        let ghost done = novel_view(novel@);
        match get_piece(b, at) {
            Ok(p) => {
                let ghost v = (p.0@, p.1@);
                novel.push(p);
                proof {
                    assert(novel_view(novel@) =~= done.push(v));
                    let rest = read_list(b@, *at as int, (n - i - 1) as nat, read_piece());
                    if rest is Ok {
                        assert(done + (seq![v] + rest->Ok_0.0) =~= done.push(v) + rest->Ok_0.0);
                    }
                }
            },
            Err(e) => {
                return Err(e);
            },
        }
        i = i + 1;
    }
    assert(novel_view(novel@) + Seq::<(Seq<u8>, Seq<u8>)>::empty() =~= novel_view(novel@));
    Ok(novel)
}

fn get_content<'a>(b: &'a [u8], at: &mut usize, previous: Option<&[u8]>) -> (r: Result<
    (Content, &'a [u8]),
    WireError,
>)
    requires
        *old(at) <= b@.len(),
    ensures
        *final(at) <= b@.len(),
        match r {
            Ok((c, name)) => read_content(
                b@,
                *old(at) as int,
                match previous {
                    Some(p) => Some(p@),
                    None => None,
                },
            ) == Ok::<(ContentView, Seq<u8>, int), WireError>((c@, name@, *final(at) as int)),
            Err(e) => read_content(
                b@,
                *old(at) as int,
                match previous {
                    Some(p) => Some(p@),
                    None => None,
                },
            ) == Err::<(ContentView, Seq<u8>, int), WireError>(e),
        },
{
    let name: &'a [u8] = match get_bytes(b, at) {
        Ok(s) => s,
        Err(e) => {
            return Err(e);
        },
    };
    match previous {
        Some(p) => if !bytes::bytes_lt(p, name) {
            return Err(WireError::ContentOrder);
        },
        None => {},
    }
    let text = match bytes::utf8_text(name) {
        Some(t) => t,
        None => {
            return Err(WireError::NotUtf8);
        },
    };
    proof {
        encode_utf8_decode_utf8(text@);
    }
    let digest = match get_digest(b, at) {
        Ok(d) => d,
        Err(e) => {
            return Err(e);
        },
    };
    match get_ops(b, at) {
        Ok(ops) => Ok(
            (Content { name: text, ops, identity: Some(ContentHash(digest)) }, name),
        ),
        Err(e) => Err(e),
    }
}

fn get_contents(b: &[u8], at: &mut usize, n: usize) -> (r: Result<Vec<Content>, WireError>)
    requires
        *old(at) <= b@.len(),
    ensures
        *final(at) <= b@.len(),
        match r {
            Ok(contents) => read_contents(b@, *old(at) as int, n as nat, None) == Ok::<
                (Seq<ContentView>, int),
                WireError,
            >((types::contents_view(contents@), *final(at) as int)),
            Err(e) => read_contents(b@, *old(at) as int, n as nat, None) == Err::<
                (Seq<ContentView>, int),
                WireError,
            >(e),
        },
{
    let ghost whole = read_contents(b@, *at as int, n as nat, None);
    let mut contents: Vec<Content> = Vec::new();
    let mut previous: Option<&[u8]> = None;
    let mut i: usize = 0;
    proof {
        assert(types::contents_view(contents@) =~= Seq::<ContentView>::empty());
        if whole is Ok {
            assert(Seq::<ContentView>::empty() + whole->Ok_0.0 =~= whole->Ok_0.0);
        }
    }
    while i < n
        invariant
            i <= n,
            *at <= b@.len(),
            whole == read_contents(b@, *old(at) as int, n as nat, None),
            whole == resumed(
                types::contents_view(contents@),
                read_contents(
                    b@,
                    *at as int,
                    (n - i) as nat,
                    match previous {
                        Some(p) => Some(p@),
                        None => None,
                    },
                ),
            ),
        decreases n - i,
    {
        let ghost done = types::contents_view(contents@);
        match get_content(b, at, previous) {
            Ok((c, name)) => {
                let ghost v = c@;
                contents.push(c);
                previous = Some(name);
                proof {
                    assert(types::contents_view(contents@) =~= done.push(v));
                    let rest = read_contents(b@, *at as int, (n - i - 1) as nat, Some(name@));
                    if rest is Ok {
                        assert(done + (seq![v] + rest->Ok_0.0) =~= done.push(v) + rest->Ok_0.0);
                    }
                }
            },
            Err(e) => {
                return Err(e);
            },
        }
        i = i + 1;
    }
    assert(types::contents_view(contents@) + Seq::<ContentView>::empty()
        =~= types::contents_view(contents@));
    Ok(contents)
}

// ---------------------------------------------------------------------------------------------
// Identities.
// ---------------------------------------------------------------------------------------------
pub(crate) fn find_novel_piece<'a>(novel: &'a [(PieceHash, Vec<u8>)], hash: &PieceHash) -> (r: Option<
    &'a Vec<u8>,
>)
    ensures
        find_novel(novel_view(novel@), hash@) == (match r {
            Some(v) => Some(v@),
            None => None,
        }),
{
    let ghost all = novel_view(novel@);
    let mut i: usize = 0;
    assert(all.skip(0) =~= all);
    while i < novel.len()
        invariant
            i <= novel@.len(),
            all == novel_view(novel@),
            find_novel(all, hash@) == find_novel(all.skip(i as int), hash@),
        decreases novel.len() - i,
    {
        assert(all.skip(i as int)[0] == (novel@[i as int].0@, novel@[i as int].1@));
        assert(all.skip(i as int).drop_first() =~= all.skip(i + 1));
        if novel[i].0.same(hash) {
            return Some(&novel[i].1);
        }
        i = i + 1;
    }
    None
}

/// A fault in the front of a program is the fault of the whole.
proof fn lemma_local_bytes_prefix(ops: Seq<OpView>, novel: Seq<(Seq<u8>, Seq<u8>)>, k: int)
    requires
        0 <= k <= ops.len(),
        local_bytes(ops.take(k), novel) is Err,
    ensures
        local_bytes(ops, novel) == local_bytes(ops.take(k), novel),
    decreases ops.len(),
{
    if k < ops.len() {
        assert(ops.drop_last().take(k) =~= ops.take(k));
        lemma_local_bytes_prefix(ops.drop_last(), novel, k);
    } else {
        assert(ops.take(k) =~= ops);
    }
}

fn local_program(ops: &[ContentOp], novel: &[(PieceHash, Vec<u8>)]) -> (r: Result<
    Option<Vec<u8>>,
    WireError,
>)
    ensures
        match r {
            Ok(Some(v)) => local_bytes(types::ops_view(ops@), novel_view(novel@)) == Ok::<
                Option<Seq<u8>>,
                WireError,
            >(Some(v@)),
            Ok(None) => local_bytes(types::ops_view(ops@), novel_view(novel@)) == Ok::<
                Option<Seq<u8>>,
                WireError,
            >(None),
            Err(e) => local_bytes(types::ops_view(ops@), novel_view(novel@)) == Err::<
                Option<Seq<u8>>,
                WireError,
            >(e),
        },
{
    let ghost all = types::ops_view(ops@);
    let ghost nv = novel_view(novel@);
    let mut out: Vec<u8> = Vec::new();
    let mut complete = true;
    let mut i: usize = 0;
    assert(all.take(0) =~= Seq::<OpView>::empty());
    assert(out@ =~= Seq::<u8>::empty());
    while i < ops.len()
        invariant
            i <= ops@.len(),
            all == types::ops_view(ops@),
            nv == novel_view(novel@),
            local_bytes(all.take(i as int), nv) == Ok::<Option<Seq<u8>>, WireError>(
                if complete {
                    Some(out@)
                } else {
                    None
                },
            ),
        decreases ops.len() - i,
    {
        let ghost next = all.take(i + 1);
        assert(next.drop_last() =~= all.take(i as int));
        assert(next.last() == ops@[i as int]@);
        match &ops[i] {
            ContentOp::Lit(b) => {
                bytes::append_bytes(&mut out, b.as_slice());
            },
            ContentOp::Piece { hash, len } => {
                match find_novel_piece(novel, hash) {
                    Some(piece) => {
                        if piece.len() as u64 != *len as u64 {
                            proof {
                                lemma_local_bytes_prefix(all, nv, i + 1);
                            }
                            return Err(WireError::PieceLength);
                        }
                        bytes::append_bytes(&mut out, piece.as_slice());
                    },
                    None => {
                        complete = false;
                    },
                }
            },
        }
        i = i + 1;
    }
    assert(all.take(i as int) =~= all);
    if complete {
        Ok(Some(out))
    } else {
        Ok(None)
    }
}

/// Verify every content program whose pieces are wholly carried by this frame. Programs that
/// refer to an earlier durable piece are completed against the fold during replay.
pub fn verify_frame_local_identities(contents: &[Content], novel: &[(PieceHash, Vec<u8>)]) -> (r:
    Result<(), WireError>)
    ensures
        match r {
            Ok(()) => local_fault(types::contents_view(contents@), novel_view(novel@)) is None,
            Err(e) => local_fault(types::contents_view(contents@), novel_view(novel@)) == Some(e),
        },
{
    let ghost nv = novel_view(novel@);
    let ghost all = types::contents_view(contents@);
    let mut i: usize = 0;
    while i < novel.len()
        invariant
            i <= novel@.len(),
            nv == novel_view(novel@),
            all == types::contents_view(contents@),
            forall|a: int, b: int|
                0 <= a < b < i ==> (#[trigger] nv[a]).0 != (#[trigger] nv[b]).0,
        decreases novel.len() - i,
    {
        let mut j: usize = 0;
        while j < i
            invariant
                j <= i < novel@.len(),
                nv == novel_view(novel@),
                all == types::contents_view(contents@),
                forall|a: int| 0 <= a < j ==> (#[trigger] nv[a]).0 != nv[i as int].0,
            decreases i - j,
        {
            if novel[j].0.same(&novel[i].0) {
                assert(nv[j as int].0 == nv[i as int].0);
                assert(!novel_distinct(nv));
                return Err(WireError::DuplicateNovel);
            }
            j = j + 1;
        }
        i = i + 1;
    }
    assert(novel_distinct(nv));
    let mut k: usize = 0;
    assert(all.skip(0) =~= all);
    while k < contents.len()
        invariant
            k <= contents@.len(),
            nv == novel_view(novel@),
            all == types::contents_view(contents@),
            novel_distinct(nv),
            contents_local_fault(all, nv) == contents_local_fault(all.skip(k as int), nv),
        decreases contents.len() - k,
    {
        let ghost cv = contents@[k as int]@;
        assert(all.skip(k as int)[0] == cv);
        assert(all.skip(k as int).drop_first() =~= all.skip(k + 1));
        match local_program(contents[k].ops.as_slice(), novel) {
            Err(e) => {
                return Err(e);
            },
            Ok(None) => {},
            Ok(Some(v)) => match &contents[k].identity {
                None => {
                    return Err(WireError::MissingIdentity);
                },
                Some(declared) => {
                    if !ContentHash::of(v.as_slice()).same(declared) {
                        return Err(WireError::IdentityMismatch);
                    }
                },
            },
        }
        k = k + 1;
    }
    Ok(())
}

// ---------------------------------------------------------------------------------------------
// Whole records.
// ---------------------------------------------------------------------------------------------
/// Some attribute has no name.
pub open spec fn attr_unnamed(attrs: Seq<(Seq<char>, AttrView)>) -> bool {
    exists|i: int| 0 <= i < attrs.len() && (#[trigger] attrs[i]).0.len() == 0
}

/// A step that refers to a piece of length zero.
pub open spec fn op_is_zero_piece(op: OpView) -> bool {
    op matches OpView::Piece { hash, len } && len == 0
}

/// Some program refers to a piece of length zero.
pub open spec fn has_zero_piece(contents: Seq<ContentView>) -> bool {
    exists|i: int, j: int|
        0 <= i < contents.len() && 0 <= j < contents[i].ops.len() && op_is_zero_piece(
            #[trigger] contents[i].ops[j],
        )
}

/// Some earlier novel piece has the identity of piece `k`.
pub open spec fn novel_repeats(novel: Seq<(Seq<u8>, Seq<u8>)>, k: int) -> bool {
    exists|j: int| 0 <= j < k && (#[trigger] novel[j]).0 == novel[k].0
}

/// The first fault among novel pieces.
pub open spec fn novel_fault(novel: Seq<(Seq<u8>, Seq<u8>)>) -> Option<WireError>
    decreases novel.len(),
{
    if novel.len() == 0 {
        None
    } else {
        match novel_fault(novel.drop_last()) {
            Some(e) => Some(e),
            None => if novel.last().1.len() == 0 {
                Some(WireError::EmptyNovel)
            } else if hash::blake3_digest(novel.last().1) != novel.last().0 {
                Some(WireError::NovelMismatch)
            } else if novel_repeats(novel, novel.len() - 1) {
                Some(WireError::DuplicateNovel)
            } else {
                None
            },
        }
    }
}

/// Why a record may not be logged.
pub open spec fn wal_fault(r: RecordView, novel: Seq<(Seq<u8>, Seq<u8>)>) -> Option<WireError> {
    match types::contents_fault(r.contents) {
        Some(e) => Some(WireError::Record(e)),
        None => if r.id.len() == 0 {
            Some(WireError::Record(RecordError::EmptyId))
        } else if attr_unnamed(r.attrs) {
            Some(WireError::EmptyAttrName)
        } else if has_zero_piece(r.contents) {
            Some(WireError::ZeroPiece)
        } else {
            match novel_fault(novel) {
                Some(e) => Some(e),
                None => local_fault(r.contents, novel),
            }
        },
    }
}

/// Every content value has an identity.
pub open spec fn all_identified(contents: Seq<ContentView>) -> bool {
    forall|i: int| 0 <= i < contents.len() ==> (#[trigger] contents[i]).identity is Some
}

/// A fault among the first novel pieces is the fault of all.
proof fn lemma_novel_fault_prefix(novel: Seq<(Seq<u8>, Seq<u8>)>, k: int)
    requires
        0 <= k <= novel.len(),
        novel_fault(novel.take(k)) is Some,
    ensures
        novel_fault(novel) == novel_fault(novel.take(k)),
    decreases novel.len(),
{
    if k < novel.len() {
        assert(novel.drop_last().take(k) =~= novel.take(k));
        lemma_novel_fault_prefix(novel.drop_last(), k);
    } else {
        assert(novel.take(k) =~= novel);
    }
}

fn check_attr_names(attrs: &[(String, AttrValue)]) -> (r: bool)
    ensures
        r == !attr_unnamed(types::attrs_view(attrs@)),
{
    let ghost all = types::attrs_view(attrs@);
    let mut i: usize = 0;
    while i < attrs.len()
        invariant
            i <= attrs@.len(),
            all == types::attrs_view(attrs@),
            forall|k: int| 0 <= k < i ==> (#[trigger] all[k]).0.len() > 0,
        decreases attrs.len() - i,
    {
        if attrs[i].0.as_str().is_empty() {
            assert(all[i as int].0.len() == 0);
            return false;
        }
        i = i + 1;
    }
    true
}

fn check_pieces(contents: &[Content]) -> (r: bool)
    ensures
        r == !has_zero_piece(types::contents_view(contents@)),
{
    let ghost all = types::contents_view(contents@);
    let mut i: usize = 0;
    while i < contents.len()
        invariant
            i <= contents@.len(),
            all == types::contents_view(contents@),
            forall|k: int, j: int|
                0 <= k < i && 0 <= j < all[k].ops.len() ==> !op_is_zero_piece(
                    #[trigger] all[k].ops[j],
                ),
        decreases contents.len() - i,
    {
        let mut j: usize = 0;
        while j < contents[i].ops.len()
            invariant
                i < contents@.len(),
                j <= contents@[i as int].ops@.len(),
                all == types::contents_view(contents@),
                forall|k: int| 0 <= k < j ==> !op_is_zero_piece(#[trigger] all[i as int].ops[k]),
            decreases contents@[i as int].ops@.len() - j,
        {
            if let ContentOp::Piece { hash, len } = &contents[i].ops[j] {
                if *len == 0 {
                    assert(op_is_zero_piece(all[i as int].ops[j as int]));
                    return false;
                }
            }
            j = j + 1;
        }
        i = i + 1;
    }
    true
}

fn check_novel(novel: &[(PieceHash, Vec<u8>)]) -> (r: Result<(), WireError>)
    ensures
        match r {
            Ok(()) => novel_fault(novel_view(novel@)) is None,
            Err(e) => novel_fault(novel_view(novel@)) == Some(e),
        },
{
    let ghost all = novel_view(novel@);
    let mut i: usize = 0;
    while i < novel.len()
        invariant
            i <= novel@.len(),
            all == novel_view(novel@),
            novel_fault(all.take(i as int)) is None,
        decreases novel.len() - i,
    {
        let ghost next = all.take(i + 1);
        assert(next.drop_last() =~= all.take(i as int));
        if novel[i].1.len() == 0 {
            proof {
                lemma_novel_fault_prefix(all, i + 1);
            }
            return Err(WireError::EmptyNovel);
        }
        if !PieceHash::of(novel[i].1.as_slice()).same(&novel[i].0) {
            proof {
                lemma_novel_fault_prefix(all, i + 1);
            }
            return Err(WireError::NovelMismatch);
        }
        let mut j: usize = 0;
        while j < i
            invariant
                j <= i < novel@.len(),
                all == novel_view(novel@),
                next == all.take(i + 1),
                next.drop_last() == all.take(i as int),
                novel_fault(all.take(i as int)) is None,
                next.last().1.len() > 0,
                hash::blake3_digest(next.last().1) == next.last().0,
                forall|k: int| 0 <= k < j ==> (#[trigger] next[k]).0 != next[i as int].0,
            decreases i - j,
        {
            if novel[j].0.same(&novel[i].0) {
                proof {
                    assert(next[j as int].0 == next[i as int].0);
                    assert(novel_repeats(next, next.len() - 1));
                    lemma_novel_fault_prefix(all, i + 1);
                }
                return Err(WireError::DuplicateNovel);
            }
            j = j + 1;
        }
        assert(!novel_repeats(next, next.len() - 1));
        i = i + 1;
    }
    assert(all.take(i as int) =~= all);
    Ok(())
}

/// Refuse a record that could not be replayed, before any of it is buffered.
pub fn validate_record_for_wal(r: &Record, novel: &[(PieceHash, Vec<u8>)]) -> (res: Result<
    (),
    WireError,
>)
    ensures
        match res {
            Ok(()) => wal_fault(r@, novel_view(novel@)) is None,
            Err(e) => wal_fault(r@, novel_view(novel@)) == Some(e),
        },
{
    match types::validate_contents(r.contents.as_slice()) {
        Ok(()) => {},
        Err(e) => {
            return Err(WireError::Record(e));
        },
    }
    if r.id.as_str().is_empty() {
        return Err(WireError::Record(RecordError::EmptyId));
    }
    if !check_attr_names(r.attrs.as_slice()) {
        return Err(WireError::EmptyAttrName);
    }
    if !check_pieces(r.contents.as_slice()) {
        return Err(WireError::ZeroPiece);
    }
    match check_novel(novel) {
        Ok(()) => {},
        Err(e) => {
            return Err(e);
        },
    }
    verify_frame_local_identities(r.contents.as_slice(), novel)
}

fn put_content(out: &mut Vec<u8>, c: &Content)
    requires
        c@.identity is Some,
    ensures
        final(out)@ == old(out)@ + content_wire()(c@),
{
    let ghost before = out@;
    put_bytes(out, c.name.as_str().as_bytes());
    match &c.identity {
        Some(h) => bytes::append_bytes(out, vstd::array::array_as_slice(&h.0)),
        None => {},
    }
    put_ops(out, c.ops.as_slice());
    assert(out@ =~= before + content_wire()(c@));
}

fn check_identified(contents: &[Content]) -> (r: bool)
    ensures
        r == all_identified(types::contents_view(contents@)),
{
    let ghost all = types::contents_view(contents@);
    let mut i: usize = 0;
    while i < contents.len()
        invariant
            i <= contents@.len(),
            all == types::contents_view(contents@),
            forall|k: int| 0 <= k < i ==> (#[trigger] all[k]).identity is Some,
        decreases contents.len() - i,
    {
        if contents[i].identity.is_none() {
            assert(all[i as int].identity is None);
            return false;
        }
        i = i + 1;
    }
    true
}

/// The payload of a record whose contents are put into canonical order.
pub open spec fn encodes(
    bytes: Seq<u8>,
    r: RecordView,
    novel: Seq<(Seq<u8>, Seq<u8>)>,
) -> bool {
    exists|sorted: Seq<ContentView>| #[trigger]
        types::canonical_of(r.contents, sorted) && bytes == record_wire(
            RecordView { id: r.id, contents: sorted, attrs: r.attrs },
            novel,
        )
}

/// Append a record's payload. A refused record appends nothing.
pub fn encode_record(out: &mut Vec<u8>, r: &Record, novel: &[(PieceHash, Vec<u8>)]) -> (res:
    Result<(), WireError>)
    ensures
        match res {
            Ok(()) => {
                &&& wal_fault(r@, novel_view(novel@)) is None
                &&& all_identified(r@.contents)
                &&& contents_sized(r@.contents)
                &&& novel_sized(novel_view(novel@))
                &&& final(out)@.len() >= old(out)@.len()
                &&& final(out)@.take(old(out)@.len() as int) == old(out)@
                &&& encodes(final(out)@.skip(old(out)@.len() as int), r@, novel_view(novel@))
            },
            Err(e) => {
                &&& final(out)@ == old(out)@
                &&& match wal_fault(r@, novel_view(novel@)) {
                    Some(f) => e == f,
                    None => !all_identified(r@.contents) && e == WireError::MissingIdentity,
                }
            },
        },
{
    match validate_record_for_wal(r, novel) {
        Ok(()) => {},
        Err(e) => {
            return Err(e);
        },
    }
    if !check_identified(r.contents.as_slice()) {
        return Err(WireError::MissingIdentity);
    }
    proof {
        lemma_sized(*r, novel@);
    }
    let ghost before = out@;
    proof {
        types::lemma_contents_fault(r@.contents);
    }
    let copy = types::clone_contents(&r.contents);
    let contents = types::sort_contents(copy);
    let ghost sorted = types::contents_view(contents@);
    let ghost target = RecordView { id: r@.id, contents: sorted, attrs: r@.attrs };
    proof {
        lemma_identified_permutation(r@.contents, sorted);
    }
    put_bytes(out, r.id.as_str().as_bytes());
    varint::put_varint(out, contents.len() as u64);
    let ghost head = out@;
    let mut i: usize = 0;
    assert(sorted.skip(0) =~= sorted);
    while i < contents.len()
        invariant
            i <= contents@.len(),
            sorted == types::contents_view(contents@),
            all_identified(sorted),
            head + list_wire(sorted, content_wire()) == out@ + list_wire(
                sorted.skip(i as int),
                content_wire(),
            ),
        decreases contents.len() - i,
    {
        let ghost mid = out@;
        assert(sorted[i as int].identity is Some);
        put_content(out, &contents[i]);
        proof {
            let tail = sorted.skip(i as int);
            assert(tail[0] == contents@[i as int]@);
            assert(tail.drop_first() =~= sorted.skip(i + 1));
            assert(mid + list_wire(tail, content_wire()) =~= out@ + list_wire(
                sorted.skip(i + 1),
                content_wire(),
            ));
        }
        i = i + 1;
    }
    proof {
        assert(sorted.skip(i as int) =~= Seq::<ContentView>::empty());
        assert(out@ + list_wire(sorted.skip(i as int), content_wire()) =~= out@);
    }
    put_attrs(out, r.attrs.as_slice());
    put_novel(out, novel);
    proof {
        let w = record_wire(target, novel_view(novel@));
        assert(out@ =~= before + w);
        assert(out@.take(before.len() as int) =~= before);
        assert(out@.skip(before.len() as int) =~= w);
        assert(types::canonical_of(r@.contents, sorted));
    }
    Ok(())
}

/// Digests of an accepted record have their size, and its pieces have bytes.
proof fn lemma_sized(r: Record, novel: Seq<(PieceHash, Vec<u8>)>)
    requires
        wal_fault(r@, novel_view(novel)) is None,
        all_identified(r@.contents),
    ensures
        contents_sized(r@.contents),
        novel_sized(novel_view(novel)),
{
    assert forall|k: int| 0 <= k < r@.contents.len() implies {
        &&& (#[trigger] r@.contents[k]).identity matches Some(d) && d.len() == 32
        &&& ops_sized(r@.contents[k].ops)
    } by {
        let c = r.contents@[k];
        assert(r@.contents[k] == c@);
        assert(r@.contents[k].identity is Some);
        assert forall|j: int| 0 <= j < c@.ops.len() implies (
        #[trigger] c@.ops[j] matches OpView::Piece { hash, len } ==> hash.len() == 32 && len
            > 0) by {
            assert(c@.ops[j] == c.ops@[j]@);
            assert(!op_is_zero_piece(r@.contents[k].ops[j]));
        }
    }
    let nv = novel_view(novel);
    assert forall|i: int| 0 <= i < nv.len() implies (#[trigger] nv[i]).0.len() == 32 by {
        assert(nv[i].0 == novel[i].0@);
    }
}

/// A reordering of identified contents is identified.
proof fn lemma_identified_permutation(a: Seq<ContentView>, b: Seq<ContentView>)
    requires
        all_identified(a),
        b.to_multiset() == a.to_multiset(),
    ensures
        all_identified(b),
{
    broadcast use vstd::seq_lib::group_to_multiset_ensures;

    assert forall|i: int| 0 <= i < b.len() implies (#[trigger] b[i]).identity is Some by {
        assert(b.to_multiset().count(b[i]) > 0) by {
            assert(b.contains(b[i]));
        }
        assert(a.contains(b[i]));
    }
}

/// Decode a record payload.
///
/// The checksum around a frame detects torn writes, not validity, so every count is capped by
/// the bytes that would have to carry it: corrupt input is an error, never a panic.
pub fn decode_record(b: &[u8]) -> (r: Result<CarvedRecord, WireError>)
    ensures
        match r {
            Ok((record, novel)) => read_record(b@) == Ok::<
                (RecordView, Seq<(Seq<u8>, Seq<u8>)>),
                WireError,
            >((record@, novel_view(novel@))),
            Err(e) => read_record(b@) == Err::<
                (RecordView, Seq<(Seq<u8>, Seq<u8>)>),
                WireError,
            >(e),
        },
{
    let mut at: usize = 0;
    let id = match get_text(b, &mut at) {
        Ok(id) => id,
        Err(e) => {
            return Err(e);
        },
    };
    let n: usize = match get_size(b, &mut at) {
        Ok(n) => n,
        Err(e) => {
            return Err(e);
        },
    };
    let contents = match get_contents(b, &mut at, n) {
        Ok(c) => c,
        Err(e) => {
            return Err(e);
        },
    };
    let attrs = match get_attrs(b, &mut at) {
        Ok(a) => a,
        Err(e) => {
            return Err(e);
        },
    };
    let novel = match get_novel(b, &mut at) {
        Ok(n) => n,
        Err(e) => {
            return Err(e);
        },
    };
    if at != b.len() {
        return Err(WireError::TrailingBytes);
    }
    if id.as_str().is_empty() {
        return Err(WireError::Record(RecordError::EmptyId));
    }
    match types::validate_contents(contents.as_slice()) {
        Ok(()) => {},
        Err(e) => {
            return Err(WireError::Record(e));
        },
    }
    match verify_frame_local_identities(contents.as_slice(), novel.as_slice()) {
        Ok(()) => {},
        Err(e) => {
            return Err(e);
        },
    }
    Ok((Record { id, contents, attrs }, novel))
}

// ---------------------------------------------------------------------------------------------
// Reading gives back what was written.
// ---------------------------------------------------------------------------------------------
/// `e` stands in `b` at `at`.
pub open spec fn holds(b: Seq<u8>, at: int, e: Seq<u8>) -> bool {
    0 <= at && at + e.len() <= b.len() && b.subrange(at, at + e.len()) == e
}

/// Two adjacent forms stand one behind the other.
pub proof fn lemma_holds_split(b: Seq<u8>, at: int, e1: Seq<u8>, e2: Seq<u8>)
    requires
        holds(b, at, e1 + e2),
    ensures
        holds(b, at, e1),
        holds(b, at + e1.len(), e2),
{
    let e = e1 + e2;
    assert forall|i: int| 0 <= i < e.len() implies #[trigger] e[i] == b[at + i] by {
        assert(b.subrange(at, at + e.len())[i] == e[i]);
    }
    assert(b.subrange(at, at + e1.len()) =~= e1) by {
        assert forall|i: int| 0 <= i < e1.len() implies b.subrange(at, at + e1.len())[i]
            == e1[i] by {
            assert(e[i] == e1[i]);
        }
    }
    assert(b.subrange(at + e1.len(), at + e1.len() + e2.len()) =~= e2) by {
        assert forall|i: int| 0 <= i < e2.len() implies b.subrange(
            at + e1.len(),
            at + e1.len() + e2.len(),
        )[i] == e2[i] by {
            assert(e[e1.len() + i] == e2[i]);
        }
    }
}

proof fn lemma_read_count(b: Seq<u8>, at: int, n: nat)
    requires
        holds(b, at, varint::varint(n)),
        n <= u64::MAX,
    ensures
        read_count(b, at) == Ok::<(nat, int), WireError>((n, at + varint::varint(n).len())),
{
    let v = varint::varint(n);
    let rest = b.skip(at + v.len());
    assert(b.skip(at) =~= v + rest) by {
        assert forall|i: int| 0 <= i < v.len() implies b.skip(at)[i] == v[i] by {
            assert(b.subrange(at, at + v.len())[i] == v[i]);
        }
    }
    varint::lemma_cap_is_u64();
    varint::lemma_varint_round_trip(n, rest, 0);
}

proof fn lemma_read_bytes(b: Seq<u8>, at: int, s: Seq<u8>)
    requires
        holds(b, at, bytes_wire(s)),
        b.len() <= usize::MAX,
    ensures
        read_bytes(b, at) == Ok::<(Seq<u8>, int), WireError>((s, at + bytes_wire(s).len())),
{
    lemma_holds_split(b, at, varint::varint(s.len()), s);
    lemma_read_count(b, at, s.len());
}

proof fn lemma_read_text(b: Seq<u8>, at: int, t: Seq<char>)
    requires
        holds(b, at, bytes_wire(encode_utf8(t))),
        b.len() <= usize::MAX,
    ensures
        read_text(b, at) == Ok::<(Seq<char>, int), WireError>(
            (t, at + bytes_wire(encode_utf8(t)).len()),
        ),
{
    lemma_read_bytes(b, at, encode_utf8(t));
    encode_utf8_valid_utf8(t);
    encode_utf8_decode_utf8(t);
}

proof fn lemma_read_list<T>(
    b: Seq<u8>,
    at: int,
    xs: Seq<T>,
    enc: spec_fn(T) -> Seq<u8>,
    dec: spec_fn(Seq<u8>, int) -> Result<(T, int), WireError>,
)
    requires
        holds(b, at, list_wire(xs, enc)),
        forall|i: int, p: int|
            0 <= i < xs.len() && #[trigger] holds(b, p, enc(xs[i])) ==> dec(b, p) == Ok::<
                (T, int),
                WireError,
            >((xs[i], p + enc(xs[i]).len())),
    ensures
        read_list(b, at, xs.len(), dec) == Ok::<(Seq<T>, int), WireError>(
            (xs, at + list_wire(xs, enc).len()),
        ),
    decreases xs.len(),
{
    if xs.len() > 0 {
        let tail = xs.drop_first();
        lemma_holds_split(b, at, enc(xs[0]), list_wire(tail, enc));
        assert forall|i: int, p: int|
            0 <= i < tail.len() && #[trigger] holds(b, p, enc(tail[i])) implies dec(b, p) == Ok::<
            (T, int),
            WireError,
        >((tail[i], p + enc(tail[i]).len())) by {
            assert(tail[i] == xs[i + 1]);
            assert(holds(b, p, enc(xs[i + 1])));
        }
        lemma_read_list(b, at + enc(xs[0]).len(), tail, enc, dec);
        assert(seq![xs[0]] + tail =~= xs);
    } else {
        assert(xs =~= Seq::<T>::empty());
    }
}

/// A list of elements of at least one byte each has at most as many elements as bytes.
pub proof fn lemma_list_wire_len<T>(xs: Seq<T>, enc: spec_fn(T) -> Seq<u8>)
    requires
        forall|i: int| 0 <= i < xs.len() ==> enc(#[trigger] xs[i]).len() >= 1,
    ensures
        list_wire(xs, enc).len() >= xs.len(),
    decreases xs.len(),
{
    if xs.len() > 0 {
        let tail = xs.drop_first();
        assert forall|i: int| 0 <= i < tail.len() implies enc(#[trigger] tail[i]).len() >= 1 by {
            assert(tail[i] == xs[i + 1]);
        }
        lemma_list_wire_len(tail, enc);
    }
}

/// Piece references as the writer accepts them: 32-byte identities, non-zero lengths.
pub open spec fn ops_sized(ops: Seq<OpView>) -> bool {
    forall|i: int|
        0 <= i < ops.len() ==> (#[trigger] ops[i] matches OpView::Piece { hash, len } ==> hash.len()
            == 32 && len > 0)
}

proof fn lemma_read_ops(b: Seq<u8>, at: int, ops: Seq<OpView>)
    requires
        holds(b, at, ops_wire(ops)),
        ops_sized(ops),
        b.len() <= usize::MAX,
    ensures
        read_ops(b, at) == Ok::<(Seq<OpView>, int), WireError>((ops, at + ops_wire(ops).len())),
{
    lemma_holds_split(b, at, varint::varint(ops.len()), list_wire(ops, op_wire()));
    lemma_list_wire_len(ops, op_wire());
    lemma_read_count(b, at, ops.len());
    assert forall|i: int, p: int|
        0 <= i < ops.len() && #[trigger] holds(b, p, op_wire()(ops[i])) implies read_op()(b, p)
        == Ok::<(OpView, int), WireError>((ops[i], p + op_wire()(ops[i]).len())) by {
        match ops[i] {
            OpView::Lit(s) => {
                assert(op_wire()(ops[i]) == seq![0u8] + bytes_wire(s));
                lemma_holds_split(b, p, seq![0u8], bytes_wire(s));
                assert(b.subrange(p, p + 1)[0] == 0u8);
                lemma_read_bytes(b, p + 1, s);
            },
            OpView::Piece { hash, len } => {
                let v = varint::varint(len as nat);
                assert(op_wire()(ops[i]) == seq![1u8] + hash + v);
                lemma_holds_split(b, p, seq![1u8] + hash, v);
                lemma_holds_split(b, p, seq![1u8], hash);
                assert(b.subrange(p, p + 1)[0] == 1u8);
                lemma_read_count(b, p + 33, len as nat);
            },
        }
    }
    lemma_read_list(b, at + varint::varint(ops.len()).len(), ops, op_wire(), read_op());
}

proof fn lemma_read_value(b: Seq<u8>, at: int, v: AttrView)
    requires
        holds(b, at, value_wire(v)),
        b.len() <= usize::MAX,
    ensures
        read_value(b, at, types::type_tag(v)) == Ok::<(AttrView, int), WireError>(
            (v, at + value_wire(v).len()),
        ),
{
    lemma_auto_spec_u64_to_from_le_bytes();
    match v {
        AttrView::Str(s) => {
            lemma_read_text(b, at, s);
        },
        AttrView::Int(i) => {
            assert((i as u64) as i64 == i) by (bit_vector);
        },
        AttrView::Bool(x) => {
            assert(b.subrange(at, at + 1)[0] == value_wire(v)[0]);
        },
        AttrView::Bytes(s) => {
            lemma_read_bytes(b, at, s);
        },
        AttrView::TimestampNs(t) => {
            assert((t as u64) as i64 == t) by (bit_vector);
        },
        _ => {},
    }
}

proof fn lemma_read_attrs(b: Seq<u8>, at: int, attrs: Seq<(Seq<char>, AttrView)>)
    requires
        holds(b, at, attrs_wire(attrs)),
        !attr_unnamed(attrs),
        b.len() <= usize::MAX,
    ensures
        read_attrs(b, at) == Ok::<(Seq<(Seq<char>, AttrView)>, int), WireError>(
            (attrs, at + attrs_wire(attrs).len()),
        ),
{
    lemma_holds_split(b, at, varint::varint(attrs.len()), list_wire(attrs, attr_wire()));
    lemma_list_wire_len(attrs, attr_wire());
    lemma_read_count(b, at, attrs.len());
    assert forall|i: int, p: int|
        0 <= i < attrs.len() && #[trigger] holds(b, p, attr_wire()(attrs[i])) implies read_attr()(
        b,
        p,
    ) == Ok::<((Seq<char>, AttrView), int), WireError>(
        (attrs[i], p + attr_wire()(attrs[i]).len()),
    ) by {
        let (k, v) = attrs[i];
        let key = bytes_wire(encode_utf8(k));
        let tag = seq![types::type_tag(v)];
        assert(attr_wire()(attrs[i]) == key + tag + value_wire(v));
        lemma_holds_split(b, p, key + tag, value_wire(v));
        lemma_holds_split(b, p, key, tag);
        lemma_read_text(b, p, k);
        assert(b.subrange(p + key.len(), p + key.len() + 1)[0] == types::type_tag(v));
        lemma_read_value(b, p + key.len() + 1, v);
        assert(k.len() > 0);
    }
    lemma_read_list(b, at + varint::varint(attrs.len()).len(), attrs, attr_wire(), read_attr());
}

/// Novel pieces as the writer accepts them.
pub open spec fn novel_sized(novel: Seq<(Seq<u8>, Seq<u8>)>) -> bool {
    forall|i: int| 0 <= i < novel.len() ==> (#[trigger] novel[i]).0.len() == 32
}

/// Every accepted novel piece has bytes, and its identity is theirs; identities differ.
pub proof fn lemma_novel_fault(novel: Seq<(Seq<u8>, Seq<u8>)>)
    ensures
        novel_fault(novel) is None <==> {
            &&& novel_distinct(novel)
            &&& forall|i: int|
                0 <= i < novel.len() ==> (#[trigger] novel[i]).1.len() > 0 && hash::blake3_digest(
                    novel[i].1,
                ) == novel[i].0
        },
    decreases novel.len(),
{
    if novel.len() > 0 {
        let front = novel.drop_last();
        let n = novel.len() - 1;
        lemma_novel_fault(front);
        assert(forall|i: int| 0 <= i < n ==> front[i] == novel[i]);
        if novel_fault(novel) is None {
            assert forall|i: int, j: int| 0 <= i < j < novel.len() implies (#[trigger] novel[i]).0
                != (#[trigger] novel[j]).0 by {
                if j < n {
                    assert(front[i] == novel[i] && front[j] == novel[j]);
                }
            }
            assert forall|i: int| 0 <= i < novel.len() implies (#[trigger] novel[i]).1.len() > 0
                && hash::blake3_digest(novel[i].1) == novel[i].0 by {
                if i < n {
                    assert(front[i] == novel[i]);
                }
            }
        } else if novel_distinct(novel) && (forall|i: int|
            0 <= i < novel.len() ==> (#[trigger] novel[i]).1.len() > 0 && hash::blake3_digest(
                novel[i].1,
            ) == novel[i].0) {
            assert forall|i: int, j: int| 0 <= i < j < front.len() implies (#[trigger] front[i]).0
                != (#[trigger] front[j]).0 by {
                assert(front[i] == novel[i] && front[j] == novel[j]);
            }
            assert forall|i: int| 0 <= i < front.len() implies (#[trigger] front[i]).1.len() > 0
                && hash::blake3_digest(front[i].1) == front[i].0 by {
                assert(front[i] == novel[i]);
            }
            assert(novel[n].1.len() > 0);
        }
    }
}

proof fn lemma_read_novel(b: Seq<u8>, at: int, novel: Seq<(Seq<u8>, Seq<u8>)>)
    requires
        holds(b, at, novel_wire(novel)),
        novel_fault(novel) is None,
        novel_sized(novel),
        b.len() <= usize::MAX,
    ensures
        read_novel(b, at) == Ok::<(Seq<(Seq<u8>, Seq<u8>)>, int), WireError>(
            (novel, at + novel_wire(novel).len()),
        ),
{
    lemma_holds_split(b, at, varint::varint(novel.len()), list_wire(novel, piece_wire()));
    lemma_list_wire_len(novel, piece_wire());
    lemma_read_count(b, at, novel.len());
    lemma_novel_fault(novel);
    assert forall|i: int, p: int|
        0 <= i < novel.len() && #[trigger] holds(b, p, piece_wire()(novel[i])) implies read_piece()(
        b,
        p,
    ) == Ok::<((Seq<u8>, Seq<u8>), int), WireError>(
        (novel[i], p + piece_wire()(novel[i]).len()),
    ) by {
        let (h, s) = novel[i];
        assert(piece_wire()(novel[i]) == h + bytes_wire(s));
        lemma_holds_split(b, p, h, bytes_wire(s));
        lemma_read_bytes(b, p + 32, s);
    }
    lemma_read_list(b, at + varint::varint(novel.len()).len(), novel, piece_wire(), read_piece());
}

/// Content values as the writer puts them down: identified, with well-sized digests.
pub open spec fn contents_sized(contents: Seq<ContentView>) -> bool {
    forall|i: int|
        0 <= i < contents.len() ==> {
            &&& (#[trigger] contents[i]).identity matches Some(d) && d.len() == 32
            &&& ops_sized(contents[i].ops)
        }
}

proof fn lemma_read_contents(
    b: Seq<u8>,
    at: int,
    contents: Seq<ContentView>,
    previous: Option<Seq<u8>>,
)
    requires
        holds(b, at, list_wire(contents, content_wire())),
        contents_sized(contents),
        types::names_ascending(contents),
        previous is Some && contents.len() > 0 ==> bytes::lex_lt(
            previous->0,
            encode_utf8(contents[0].name),
        ),
        b.len() <= usize::MAX,
    ensures
        read_contents(b, at, contents.len(), previous) == Ok::<(Seq<ContentView>, int), WireError>(
            (contents, at + list_wire(contents, content_wire()).len()),
        ),
    decreases contents.len(),
{
    if contents.len() > 0 {
        let c = contents[0];
        let tail = contents.drop_first();
        let name = bytes_wire(encode_utf8(c.name));
        let digest = c.identity->0;
        let ops = ops_wire(c.ops);
        let w = content_wire()(c);
        assert(w == name + digest + ops);
        lemma_holds_split(b, at, w, list_wire(tail, content_wire()));
        lemma_holds_split(b, at, name + digest, ops);
        lemma_holds_split(b, at, name, digest);
        lemma_read_bytes(b, at, encode_utf8(c.name));
        encode_utf8_valid_utf8(c.name);
        encode_utf8_decode_utf8(c.name);
        lemma_read_ops(b, at + name.len() + 32, c.ops);
        assert(c.identity == Some(digest));
        assert(read_content(b, at, previous) == Ok::<(ContentView, Seq<u8>, int), WireError>(
            (c, encode_utf8(c.name), at + w.len()),
        ));
        assert forall|i: int, j: int| 0 <= i < j < tail.len() implies bytes::name_lt(
            (#[trigger] tail[i]).name,
            (#[trigger] tail[j]).name,
        ) by {
            assert(tail[i] == contents[i + 1] && tail[j] == contents[j + 1]);
        }
        assert forall|i: int| 0 <= i < tail.len() implies {
            &&& (#[trigger] tail[i]).identity matches Some(d) && d.len() == 32
            &&& ops_sized(tail[i].ops)
        } by {
            assert(tail[i] == contents[i + 1]);
        }
        if tail.len() > 0 {
            assert(bytes::name_lt(contents[0].name, contents[1].name));
        }
        lemma_read_contents(b, at + w.len(), tail, Some(encode_utf8(c.name)));
        assert(seq![c] + tail =~= contents);
    } else {
        assert(contents =~= Seq::<ContentView>::empty());
    }
}

proof fn lemma_holds_five(
    b: Seq<u8>,
    e1: Seq<u8>,
    e2: Seq<u8>,
    e3: Seq<u8>,
    e4: Seq<u8>,
    e5: Seq<u8>,
)
    requires
        b == e1 + e2 + e3 + e4 + e5,
    ensures
        holds(b, 0, e1),
        holds(b, e1.len() as int, e2),
        holds(b, (e1.len() + e2.len()) as int, e3),
        holds(b, (e1.len() + e2.len() + e3.len()) as int, e4),
        holds(b, (e1.len() + e2.len() + e3.len() + e4.len()) as int, e5),
{
    assert(b.subrange(0, b.len() as int) =~= b);
    lemma_holds_split(b, 0, e1 + e2 + e3 + e4, e5);
    lemma_holds_split(b, 0, e1 + e2 + e3, e4);
    lemma_holds_split(b, 0, e1 + e2, e3);
    lemma_holds_split(b, 0, e1, e2);
}

/// A record that was accepted for the log is read back exactly: content boundaries, attribute
/// order, duplicate keys and float bit patterns included.
///
/// Its contents are in canonical order, its digests have their size, and the payload fits the
/// address space.
pub proof fn lemma_record_round_trip(r: RecordView, novel: Seq<(Seq<u8>, Seq<u8>)>)
    requires
        wal_fault(r, novel) is None,
        types::names_ascending(r.contents),
        contents_sized(r.contents),
        novel_sized(novel),
        record_wire(r, novel).len() <= usize::MAX,
    ensures
        read_record(record_wire(r, novel)) == Ok::<
            (RecordView, Seq<(Seq<u8>, Seq<u8>)>),
            WireError,
        >((r, novel)),
{
    let b = record_wire(r, novel);
    let id = bytes_wire(encode_utf8(r.id));
    let count = varint::varint(r.contents.len());
    let contents = list_wire(r.contents, content_wire());
    let attrs = attrs_wire(r.attrs);
    let nov = novel_wire(novel);
    lemma_holds_five(b, id, count, contents, attrs, nov);
    let p1 = id.len() as int;
    let p2 = p1 + count.len();
    let p3 = p2 + contents.len();
    let p4 = p3 + attrs.len();
    assert(p4 + nov.len() == b.len());
    assert(read_text(b, 0) == Ok::<(Seq<char>, int), WireError>((r.id, p1))) by {
        lemma_read_text(b, 0, r.id);
    }
    assert(read_size(b, p1) == Ok::<(nat, int), WireError>((r.contents.len(), p2))) by {
        assert forall|i: int| 0 <= i < r.contents.len() implies content_wire()(
            #[trigger] r.contents[i],
        ).len() >= 1 by {
            assert(r.contents[i].identity is Some);
        }
        lemma_list_wire_len(r.contents, content_wire());
        lemma_read_count(b, p1, r.contents.len());
    }
    assert(read_contents(b, p2, r.contents.len(), None) == Ok::<
        (Seq<ContentView>, int),
        WireError,
    >((r.contents, p3))) by {
        lemma_read_contents(b, p2, r.contents, None);
    }
    assert(read_attrs(b, p3) == Ok::<(Seq<(Seq<char>, AttrView)>, int), WireError>(
        (r.attrs, p4),
    )) by {
        lemma_read_attrs(b, p3, r.attrs);
    }
    assert(read_novel(b, p4) == Ok::<(Seq<(Seq<u8>, Seq<u8>)>, int), WireError>(
        (novel, b.len() as int),
    )) by {
        lemma_read_novel(b, p4, novel);
    }
}

} // verus!
