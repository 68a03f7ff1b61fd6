//! A payload ends where its record does: with anything added behind it, it is refused.

use crate::store::wire;
use crate::store::wire::WireError;
use crate::types::{AttrView, ContentView, OpView};
use crate::varint;
use vstd::prelude::*;

verus! {

/// What was read from bytes is read from more of them, and ends inside the former.
spec fn settled<T>(
    b: Seq<u8>,
    at: int,
    near: Result<(T, int), WireError>,
    far: Result<(T, int), WireError>,
) -> bool {
    near matches Ok((x, p)) ==> far == near && at <= p <= b.len()
}

proof fn lemma_varint_extends(s: Seq<u8>, more: Seq<u8>, depth: nat)
    ensures
        varint::read_varint(s, depth) is Ok ==> varint::read_varint(s + more, depth)
            == varint::read_varint(s, depth) && varint::read_varint(s, depth)->Ok_0.1 <= s.len(),
    decreases s.len(),
{
    if s.len() > 0 {
        assert((s + more)[0] == s[0]);
        assert((s + more).drop_first() =~= s.drop_first() + more);
        lemma_varint_extends(s.drop_first(), more, depth + 1);
    }
}

proof fn lemma_count(b: Seq<u8>, more: Seq<u8>, at: int)
    requires
        0 <= at <= b.len(),
    ensures
        settled(b, at, wire::read_count(b, at), wire::read_count(b + more, at)),
        settled(b, at, wire::read_size(b, at), wire::read_size(b + more, at)),
{
    assert((b + more).skip(at) =~= b.skip(at) + more);
    lemma_varint_extends(b.skip(at), more, 0);
}

proof fn lemma_bytes(b: Seq<u8>, more: Seq<u8>, at: int)
    requires
        0 <= at <= b.len(),
    ensures
        settled(b, at, wire::read_bytes(b, at), wire::read_bytes(b + more, at)),
        settled(b, at, wire::read_text(b, at), wire::read_text(b + more, at)),
{
    lemma_count(b, more, at);
    if let Ok((s, p)) = wire::read_bytes(b, at) {
        let (n, q) = wire::read_size(b, at)->Ok_0;
        assert((b + more).subrange(q, q + n) =~= b.subrange(q, q + n));
    }
}

proof fn lemma_fixed(b: Seq<u8>, more: Seq<u8>, at: int, n: nat)
    requires
        0 <= at <= b.len(),
    ensures
        settled(b, at, wire::read_fixed(b, at, n), wire::read_fixed(b + more, at, n)),
{
    if n <= b.len() - at {
        assert((b + more).subrange(at, at + n) =~= b.subrange(at, at + n));
    }
}

/// A list is read from more bytes where its elements are.
proof fn lemma_list<T>(
    b: Seq<u8>,
    more: Seq<u8>,
    at: int,
    n: nat,
    item: spec_fn(Seq<u8>, int) -> Result<(T, int), WireError>,
)
    requires
        0 <= at <= b.len(),
        forall|p: int|
            0 <= p <= b.len() ==> settled(b, p, #[trigger] item(b, p), item(b + more, p)),
    ensures
        settled(
            b,
            at,
            wire::read_list(b, at, n, item),
            wire::read_list(b + more, at, n, item),
        ),
    decreases n,
{
    if n > 0 {
        assert(settled(b, at, item(b, at), item(b + more, at)));
        if let Ok((x, p)) = item(b, at) {
            lemma_list(b, more, p, (n - 1) as nat, item);
        }
    }
}

proof fn lemma_op(b: Seq<u8>, more: Seq<u8>, at: int)
    requires
        0 <= at <= b.len(),
    ensures
        settled(b, at, wire::read_op()(b, at), wire::read_op()(b + more, at)),
{
    if at < b.len() {
        assert((b + more)[at] == b[at]);
        lemma_bytes(b, more, at + 1);
        lemma_fixed(b, more, at + 1, 32);
        if let Ok((h, p)) = wire::read_fixed(b, at + 1, 32) {
            lemma_count(b, more, p);
        }
    }
}

proof fn lemma_ops(b: Seq<u8>, more: Seq<u8>, at: int)
    requires
        0 <= at <= b.len(),
    ensures
        settled(b, at, wire::read_ops(b, at), wire::read_ops(b + more, at)),
{
    lemma_count(b, more, at);
    let item = wire::read_op();
    assert forall|p: int| 0 <= p <= b.len() implies settled(
        b,
        p,
        #[trigger] item(b, p),
        item(b + more, p),
    ) by {
        lemma_op(b, more, p);
    }
    if let Ok((n, p)) = wire::read_size(b, at) {
        lemma_list::<OpView>(b, more, p, n, item);
    }
}

proof fn lemma_value(b: Seq<u8>, more: Seq<u8>, at: int, tag: u8)
    requires
        0 <= at <= b.len(),
    ensures
        settled(b, at, wire::read_value(b, at, tag), wire::read_value(b + more, at, tag)),
{
    lemma_bytes(b, more, at);
    lemma_fixed(b, more, at, 8);
    lemma_fixed(b, more, at, 1);
}

proof fn lemma_attr(b: Seq<u8>, more: Seq<u8>, at: int)
    requires
        0 <= at <= b.len(),
    ensures
        settled(b, at, wire::read_attr()(b, at), wire::read_attr()(b + more, at)),
{
    lemma_bytes(b, more, at);
    if let Ok((key, p)) = wire::read_text(b, at) {
        if p < b.len() {
            assert((b + more)[p] == b[p]);
            lemma_value(b, more, p + 1, b[p]);
        }
    }
}

proof fn lemma_attrs(b: Seq<u8>, more: Seq<u8>, at: int)
    requires
        0 <= at <= b.len(),
    ensures
        settled(b, at, wire::read_attrs(b, at), wire::read_attrs(b + more, at)),
{
    lemma_count(b, more, at);
    let item = wire::read_attr();
    assert forall|p: int| 0 <= p <= b.len() implies settled(
        b,
        p,
        #[trigger] item(b, p),
        item(b + more, p),
    ) by {
        lemma_attr(b, more, p);
    }
    if let Ok((n, p)) = wire::read_size(b, at) {
        lemma_list::<(Seq<char>, AttrView)>(b, more, p, n, item);
    }
}

proof fn lemma_piece(b: Seq<u8>, more: Seq<u8>, at: int)
    requires
        0 <= at <= b.len(),
    ensures
        settled(b, at, wire::read_piece()(b, at), wire::read_piece()(b + more, at)),
{
    lemma_fixed(b, more, at, 32);
    if let Ok((h, p)) = wire::read_fixed(b, at, 32) {
        lemma_bytes(b, more, p);
    }
}

proof fn lemma_novel(b: Seq<u8>, more: Seq<u8>, at: int)
    requires
        0 <= at <= b.len(),
    ensures
        settled(b, at, wire::read_novel(b, at), wire::read_novel(b + more, at)),
{
    lemma_count(b, more, at);
    let item = wire::read_piece();
    assert forall|p: int| 0 <= p <= b.len() implies settled(
        b,
        p,
        #[trigger] item(b, p),
        item(b + more, p),
    ) by {
        lemma_piece(b, more, p);
    }
    if let Ok((n, p)) = wire::read_size(b, at) {
        lemma_list::<(Seq<u8>, Seq<u8>)>(b, more, p, n, item);
    }
}

proof fn lemma_content(b: Seq<u8>, more: Seq<u8>, at: int, previous: Option<Seq<u8>>)
    requires
        0 <= at <= b.len(),
    ensures
        wire::read_content(b, at, previous) matches Ok((c, name, p)) ==> wire::read_content(
            b + more,
            at,
            previous,
        ) == wire::read_content(b, at, previous) && at <= p <= b.len(),
{
    lemma_bytes(b, more, at);
    if let Ok((name, p)) = wire::read_bytes(b, at) {
        lemma_fixed(b, more, p, 32);
        if let Ok((digest, q)) = wire::read_fixed(b, p, 32) {
            lemma_ops(b, more, q);
        }
    }
}

proof fn lemma_contents(b: Seq<u8>, more: Seq<u8>, at: int, n: nat, previous: Option<Seq<u8>>)
    requires
        0 <= at <= b.len(),
    ensures
        settled::<Seq<ContentView>>(
            b,
            at,
            wire::read_contents(b, at, n, previous),
            wire::read_contents(b + more, at, n, previous),
        ),
    decreases n,
{
    if n > 0 {
        lemma_content(b, more, at, previous);
        if let Ok((c, name, p)) = wire::read_content(b, at, previous) {
            lemma_contents(b, more, p, (n - 1) as nat, Some(name));
        }
    }
}

/// A payload that decodes is refused with any bytes added behind it.
pub proof fn lemma_longer_payload_refused(payload: Seq<u8>, more: Seq<u8>)
    requires
        wire::read_record(payload) is Ok,
        more.len() > 0,
    ensures
        wire::read_record(payload + more) == Err::<
            (crate::types::RecordView, Seq<(Seq<u8>, Seq<u8>)>),
            WireError,
        >(WireError::TrailingBytes),
{
    let b = payload;
    lemma_bytes(b, more, 0);
    let (id, p) = wire::read_text(b, 0)->Ok_0;
    lemma_count(b, more, p);
    let (n, q) = wire::read_size(b, p)->Ok_0;
    lemma_contents(b, more, q, n, None);
    let (contents, r) = wire::read_contents(b, q, n, None)->Ok_0;
    lemma_attrs(b, more, r);
    let (attrs, s) = wire::read_attrs(b, r)->Ok_0;
    lemma_novel(b, more, s);
}

} // verus!
