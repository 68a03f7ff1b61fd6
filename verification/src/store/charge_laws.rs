//! What a write is charged covers the frame that is written for it, so that whoever reads the log
//! under the same limits admits it.

use crate::hash;
use crate::part::PartView;
use crate::read_limits;
use crate::read_limits::ReadLimits;
use crate::store::admission;
use crate::store::admission::{SpanView, SpansView};
use crate::store::batch_apply;
use crate::store::carve;
use crate::store::carve::ItemView;
use crate::store::engine;
use crate::store::log_laws;
use crate::store::wal;
use crate::store::wal::FrameView;
use crate::store::wire;
use crate::store::writer;
use crate::store::writer::{Novel, WriterView};
use crate::types;
use crate::types::{AttrView, ContentView, OpView, RecordView};
use crate::varint;
use vstd::prelude::*;
use vstd::utf8::*;

verus! {

// ---------------------------------------------------------------------------------------------
// Lists.
// ---------------------------------------------------------------------------------------------
proof fn lemma_list_push<T>(xs: Seq<T>, x: T, item: spec_fn(T) -> Seq<u8>)
    ensures
        wire::list_wire(xs.push(x), item).len() == wire::list_wire(xs, item).len() + item(x).len(),
    decreases xs.len(),
{
    let more = xs.push(x);
    if xs.len() == 0 {
        assert(more.drop_first() =~= xs);
    } else {
        assert(more.drop_first() =~= xs.drop_first().push(x));
        lemma_list_push(xs.drop_first(), x, item);
    }
}

proof fn lemma_list_remove<T>(xs: Seq<T>, k: int, item: spec_fn(T) -> Seq<u8>)
    requires
        0 <= k < xs.len(),
    ensures
        wire::list_wire(xs, item).len() == item(xs[k]).len() + wire::list_wire(
            xs.remove(k),
            item,
        ).len(),
    decreases xs.len(),
{
    if k == 0 {
        assert(xs.remove(0) =~= xs.drop_first());
    } else {
        let rest = xs.drop_first();
        lemma_list_remove(rest, k - 1, item);
        assert(xs.remove(k).drop_first() =~= rest.remove(k - 1));
        assert(xs.remove(k)[0] == xs[0]);
    }
}

/// A reordering takes as many bytes.
proof fn lemma_list_reordered<T>(a: Seq<T>, b: Seq<T>, item: spec_fn(T) -> Seq<u8>)
    requires
        a.to_multiset() == b.to_multiset(),
    ensures
        wire::list_wire(a, item).len() == wire::list_wire(b, item).len(),
    decreases a.len(),
{
    a.to_multiset_ensures();
    b.to_multiset_ensures();
    assert(a.len() == b.len());
    if a.len() > 0 {
        let x = a[0];
        assert(a.contains(x));
        assert(b.to_multiset().count(x) > 0);
        assert(b.contains(x));
        let k = choose|k: int| 0 <= k < b.len() && b[k] == x;
        assert(a.remove(0) =~= a.drop_first());
        assert(a.drop_first().to_multiset() =~= b.remove(k).to_multiset());
        lemma_list_reordered(a.drop_first(), b.remove(k), item);
        lemma_list_remove(b, k, item);
    }
}

proof fn lemma_field(b: Seq<u8>)
    ensures
        wire::bytes_wire(b).len() == admission::field_size(b.len()),
{
    varint::lemma_varint_len(b.len());
}

// ---------------------------------------------------------------------------------------------
// Contents.
// ---------------------------------------------------------------------------------------------
/// What the steps of spans take.
spec fn ops_total(spans: Seq<SpanView>) -> nat
    decreases spans.len(),
{
    if spans.len() == 0 {
        0
    } else {
        ops_total(spans.drop_last()) + admission::span_op_size(spans.last())
    }
}

/// What the pieces of spans would take if all were new.
spec fn novel_total(spans: Seq<SpanView>) -> nat
    decreases spans.len(),
{
    if spans.len() == 0 {
        0
    } else {
        novel_total(spans.drop_last()) + admission::span_novel_size(spans.last())
    }
}

proof fn lemma_spans_split(spans: Seq<SpanView>)
    ensures
        admission::spans_size(spans) == ops_total(spans) + novel_total(spans),
    decreases spans.len(),
{
    if spans.len() > 0 {
        lemma_spans_split(spans.drop_last());
    }
}

proof fn lemma_ops_len(spans: Seq<SpanView>)
    requires
        !admission::any_too_long(spans),
        wire::ops_sized(carve::span_ops(spans)),
    ensures
        wire::list_wire(carve::span_ops(spans), wire::op_wire()).len() == ops_total(spans),
    decreases spans.len(),
{
    let ops = carve::span_ops(spans);
    if spans.len() > 0 {
        let front = spans.drop_last();
        let s = spans.last();
        assert(carve::span_ops(front) =~= ops.drop_last());
        assert(ops.drop_last().push(ops.last()) =~= ops);
        assert(!admission::any_too_long(front)) by {
            if admission::any_too_long(front) {
                let i = choose|i: int|
                    0 <= i < front.len() && admission::span_too_long(#[trigger] front[i]);
                assert(admission::span_too_long(spans[i]));
            }
        }
        assert(wire::ops_sized(carve::span_ops(front))) by {
            assert forall|i: int| 0 <= i < front.len() implies (
            #[trigger] carve::span_ops(front)[i] matches OpView::Piece { hash, len } ==> hash.len()
                == 32 && len > 0) by {
                assert(carve::span_ops(front)[i] == ops[i]);
            }
        }
        lemma_ops_len(front);
        lemma_list_push(ops.drop_last(), ops.last(), wire::op_wire());
        assert(!admission::span_too_long(spans[spans.len() - 1]));
        assert(ops[spans.len() - 1] == carve::span_op(s));
        let b = admission::span_bytes(s);
        if admission::is_piece(s) {
            varint::lemma_varint_len(b.len());
        } else {
            lemma_field(b);
        }
    }
}

/// What a content value takes without its new pieces.
spec fn head_size(c: SpansView) -> nat {
    admission::field_size(encode_utf8(c.name).len()) + 32 + varint::varint_len(c.spans.len())
        + ops_total(c.spans)
}

spec fn heads_total(contents: Seq<SpansView>) -> nat
    decreases contents.len(),
{
    if contents.len() == 0 {
        0
    } else {
        heads_total(contents.drop_last()) + head_size(contents.last())
    }
}

spec fn pieces_total(contents: Seq<SpansView>) -> nat
    decreases contents.len(),
{
    if contents.len() == 0 {
        0
    } else {
        pieces_total(contents.drop_last()) + novel_total(contents.last().spans)
    }
}

proof fn lemma_contents_split(contents: Seq<SpansView>)
    ensures
        admission::contents_size(contents) == heads_total(contents) + pieces_total(contents),
    decreases contents.len(),
{
    if contents.len() > 0 {
        lemma_contents_split(contents.drop_last());
        lemma_spans_split(contents.last().spans);
    }
}

/// Carved contents whose digests have their size.
spec fn carvable(contents: Seq<SpansView>) -> bool {
    forall|i: int|
        0 <= i < contents.len() ==> !admission::any_too_long((#[trigger] contents[i]).spans)
            && wire::ops_sized(carve::span_ops(contents[i].spans)) && hash::blake3_digest(
            admission::spans_bytes(contents[i].spans),
        ).len() == 32
}

proof fn lemma_heads_len(contents: Seq<SpansView>)
    requires
        carvable(contents),
    ensures
        wire::list_wire(carve::carved_all(contents), wire::content_wire()).len() == heads_total(
            contents,
        ),
    decreases contents.len(),
{
    let all = carve::carved_all(contents);
    if contents.len() > 0 {
        let front = contents.drop_last();
        let c = contents.last();
        assert(carve::carved_all(front) =~= all.drop_last());
        assert(all.drop_last().push(all.last()) =~= all);
        assert forall|i: int| 0 <= i < front.len() implies !admission::any_too_long(
            (#[trigger] front[i]).spans,
        ) && wire::ops_sized(carve::span_ops(front[i].spans)) && hash::blake3_digest(
            admission::spans_bytes(front[i].spans),
        ).len() == 32 by {
            assert(front[i] == contents[i]);
        }
        lemma_heads_len(front);
        lemma_list_push(all.drop_last(), all.last(), wire::content_wire());
        assert(contents[contents.len() - 1] == c);
        assert(all[contents.len() - 1] == carve::carved(c));
        lemma_ops_len(c.spans);
        lemma_field(encode_utf8(c.name));
        varint::lemma_varint_len(c.spans.len());
    }
}

// ---------------------------------------------------------------------------------------------
// New pieces.
// ---------------------------------------------------------------------------------------------
spec fn novel_len(novel: Novel) -> nat {
    wire::list_wire(novel, wire::piece_wire()).len()
}

proof fn lemma_spans_novel(
    parts: Seq<PartView>,
    w: WriterView,
    novel: Novel,
    spans: Seq<SpanView>,
    n: nat,
)
    requires
        n <= spans.len(),
        writer::folded_spans(parts, w, novel, spans, n) is Ok,
        wire::novel_sized((writer::folded_spans(parts, w, novel, spans, n)->Ok_0).1),
    ensures
        ({
            let news = (writer::folded_spans(parts, w, novel, spans, n)->Ok_0).1;
            &&& wire::novel_sized(novel)
            &&& novel_len(news) <= novel_len(novel) + novel_total(spans.take(n as int))
            &&& news.len() <= novel.len() + admission::spans_pieces(spans.take(n as int))
            &&& news.len() == novel.len() + admission::spans_pieces(spans.take(n as int))
                ==> novel_len(news) == novel_len(novel) + novel_total(spans.take(n as int))
        }),
    decreases n,
{
    if n > 0 {
        let (before, so_far) = writer::folded_spans(parts, w, novel, spans, (n - 1) as nat)->Ok_0;
        let news = (writer::folded_spans(parts, w, novel, spans, n)->Ok_0).1;
        let s = spans[n - 1];
        let b = admission::span_bytes(s);
        let h = hash::blake3_digest(b);
        assert(spans.take(n as int).drop_last() =~= spans.take(n - 1));
        assert(spans.take(n as int).last() == s);
        assert(wire::novel_sized(so_far)) by {
            assert forall|i: int| 0 <= i < so_far.len() implies (#[trigger] so_far[i]).0.len()
                == 32 by {
                assert(news[i] == so_far[i]);
            }
        }
        lemma_spans_novel(parts, w, novel, spans, (n - 1) as nat);
        if news != so_far {
            assert(news == so_far.push((h, b)));
            assert(news[so_far.len() as int].0.len() == 32);
            lemma_list_push(so_far, (h, b), wire::piece_wire());
            lemma_field(b);
        }
    }
}

proof fn lemma_contents_novel(
    parts: Seq<PartView>,
    w: WriterView,
    contents: Seq<SpansView>,
    n: nat,
)
    requires
        n <= contents.len(),
        writer::folded_contents(parts, w, contents, n) is Ok,
        wire::novel_sized((writer::folded_contents(parts, w, contents, n)->Ok_0).1),
    ensures
        ({
            let news = (writer::folded_contents(parts, w, contents, n)->Ok_0).1;
            &&& novel_len(news) <= pieces_total(contents.take(n as int))
            &&& news.len() <= admission::contents_pieces(contents.take(n as int))
            &&& news.len() == admission::contents_pieces(contents.take(n as int)) ==> novel_len(
                news,
            ) == pieces_total(contents.take(n as int))
        }),
    decreases n,
{
    if n > 0 {
        let (before, so_far) = writer::folded_contents(
            parts,
            w,
            contents,
            (n - 1) as nat,
        )->Ok_0;
        let spans = contents[n - 1].spans;
        lemma_spans_novel(parts, before, so_far, spans, spans.len());
        lemma_contents_novel(parts, w, contents, (n - 1) as nat);
        assert(spans.take(spans.len() as int) =~= spans);
        assert(contents.take(n as int).drop_last() =~= contents.take(n - 1));
        assert(contents.take(n as int).last() == contents[n - 1]);
    }
}

proof fn lemma_varint_grows(a: nat, b: nat)
    requires
        a <= b,
    ensures
        varint::varint_len(a) <= varint::varint_len(b),
    decreases b,
{
    if a >= 128 {
        lemma_varint_grows(a / 128, b / 128);
    }
}

// ---------------------------------------------------------------------------------------------
// Attributes.
// ---------------------------------------------------------------------------------------------
proof fn lemma_attrs_len(attrs: Seq<(Seq<char>, AttrView)>)
    ensures
        wire::list_wire(attrs, wire::attr_wire()).len() == admission::attrs_size(attrs),
    decreases attrs.len(),
{
    if attrs.len() > 0 {
        lemma_attrs_len(attrs.drop_last());
        let a = attrs.last();
        assert(attrs.drop_last().push(a) =~= attrs);
        lemma_list_push(attrs.drop_last(), a, wire::attr_wire());
        lemma_field(encode_utf8(a.0));
        match a.1 {
            AttrView::Str(s) => {
                lemma_field(encode_utf8(s));
            },
            AttrView::Bytes(b) => {
                lemma_field(b);
            },
            AttrView::Int(i) => {
                vstd::bytes::lemma_auto_spec_u64_to_from_le_bytes();
            },
            AttrView::Float(f) => {
                vstd::bytes::lemma_auto_spec_u64_to_from_le_bytes();
            },
            AttrView::UInt(u) => {
                vstd::bytes::lemma_auto_spec_u64_to_from_le_bytes();
            },
            AttrView::TimestampNs(t) => {
                vstd::bytes::lemma_auto_spec_u64_to_from_le_bytes();
            },
            _ => {},
        }
    }
}

// ---------------------------------------------------------------------------------------------
// Frames.
// ---------------------------------------------------------------------------------------------
/// The payload of a record that was folded takes no more than the record was charged; and where each
/// of its pieces is new, the record was charged that payload and what frames it, and nothing more.
pub proof fn lemma_record_charged(
    parts: Seq<PartView>,
    w: WriterView,
    id: Seq<char>,
    contents: Seq<SpansView>,
    attrs: Seq<(Seq<char>, AttrView)>,
    r: RecordView,
    novel: Novel,
)
    requires
        engine::carved_record(id, contents, attrs, r),
        forall|i: int|
            0 <= i < contents.len() ==> !admission::any_too_long((#[trigger] contents[i]).spans),
        writer::folded_contents(parts, w, contents, contents.len()) matches Ok((_, news)) && news
            == novel,
        wire::contents_sized(r.contents),
        wire::novel_sized(novel),
        novel.len() <= u64::MAX,
    ensures
        wire::record_wire(r, novel).len() <= admission::record_size(id, contents, attrs),
        novel.len() == admission::contents_pieces(contents) ==> wire::record_wire(r, novel).len()
            + admission::WAL_FRAME_OVERHEAD == admission::record_size(id, contents, attrs),
{
    let all = carve::carved_all(contents);
    all.to_multiset_ensures();
    r.contents.to_multiset_ensures();
    assert(r.contents.len() == contents.len());
    assert forall|i: int| 0 <= i < contents.len() implies !admission::any_too_long(
        (#[trigger] contents[i]).spans,
    ) && wire::ops_sized(carve::span_ops(contents[i].spans)) && hash::blake3_digest(
        admission::spans_bytes(contents[i].spans),
    ).len() == 32 by {
        assert(all[i] == carve::carved(contents[i]));
        assert(all.contains(all[i]));
        assert(r.contents.to_multiset().count(all[i]) > 0);
        assert(r.contents.contains(all[i]));
        let k = choose|k: int| 0 <= k < r.contents.len() && r.contents[k] == all[i];
        assert(r.contents[k].identity is Some);
    }
    lemma_heads_len(contents);
    lemma_list_reordered(r.contents, all, wire::content_wire());
    lemma_contents_split(contents);
    lemma_contents_novel(parts, w, contents, contents.len());
    assert(contents.take(contents.len() as int) =~= contents);
    lemma_attrs_len(attrs);
    lemma_field(encode_utf8(id));
    varint::lemma_varint_len(contents.len());
    varint::lemma_varint_len(attrs.len());
    varint::lemma_varint_len(novel.len());
    lemma_varint_grows(
        novel.len(),
        admission::sat(admission::contents_pieces(contents)) as nat,
    );
}

/// A payload that takes no more than was charged is admitted where the charge was.
pub proof fn lemma_charge_admits(
    payload: nat,
    size: nat,
    write_limits: admission::WriteLimits,
    limits: ReadLimits,
    item: Option<usize>,
)
    requires
        payload <= u32::MAX,
        payload <= size,
        admission::charge_fault(admission::sat(size), write_limits, limits, item) is None,
    ensures
        read_limits::frame_refusal(limits, payload as u64, payload as u64) is None,
{
}

/// A record that was accepted and framed is admitted by whoever reads under the same limits.
pub proof fn lemma_record_loggable(
    parts: Seq<PartView>,
    w: WriterView,
    id: Seq<char>,
    contents: Seq<SpansView>,
    attrs: Seq<(Seq<char>, AttrView)>,
    write_limits: admission::WriteLimits,
    limits: ReadLimits,
    item: Option<usize>,
    lengths_first: bool,
    fr: FrameView,
)
    requires
        !fr.tomb,
        engine::carved_record(id, contents, attrs, fr.record),
        admission::record_fault(
            id,
            contents,
            attrs,
            write_limits,
            limits,
            item,
            lengths_first,
        ) is None,
        forall|i: int|
            0 <= i < contents.len() ==> !admission::any_too_long((#[trigger] contents[i]).spans),
        writer::folded_contents(parts, w, contents, contents.len()) matches Ok((_, news)) && news
            == fr.novel,
        wire::wal_fault(fr.record, fr.novel) is None,
        wal::member_fits(
            wire::record_wire(fr.record, fr.novel),
            fr.record,
            fr.novel,
            false,
        ),
    ensures
        log_laws::loggable(fr, limits),
{
    let payload = wire::record_wire(fr.record, fr.novel);
    lemma_novel_count(fr.record, fr.novel);
    lemma_record_charged(parts, w, id, contents, attrs, fr.record, fr.novel);
    lemma_charge_admits(
        payload.len(),
        admission::record_size(id, contents, attrs),
        write_limits,
        limits,
        item,
    );
}

/// There are no more new pieces than a payload has bytes.
proof fn lemma_novel_count(r: RecordView, novel: Novel)
    requires
        wire::novel_sized(novel),
    ensures
        novel.len() <= wire::record_wire(r, novel).len(),
{
    assert forall|i: int| 0 <= i < novel.len() implies wire::piece_wire()(
        #[trigger] novel[i],
    ).len() >= 1 by {}
    wire::lemma_list_wire_len(novel, wire::piece_wire());
}

/// A deletion that was accepted is admitted by whoever reads under the same limits.
pub proof fn lemma_deletion_loggable(
    id: Seq<char>,
    seq: u64,
    write_limits: admission::WriteLimits,
    limits: ReadLimits,
    item: Option<usize>,
)
    requires
        id.len() > 0,
        encode_utf8(id).len() <= u32::MAX,
        admission::delete_fault(id, write_limits, limits, item) is None,
    ensures
        log_laws::loggable(
            FrameView { tomb: true, seq, record: wal::bare_record(id), novel: Seq::empty() },
            limits,
        ),
{
    lemma_charge_admits(
        encode_utf8(id).len(),
        admission::delete_size(id),
        write_limits,
        limits,
        item,
    );
}

/// The completion of a batch takes no more than any of its members was charged.
pub proof fn lemma_marker_admitted(
    items: Seq<ItemView>,
    write_limits: admission::WriteLimits,
    limits: ReadLimits,
)
    requires
        0 < items.len() <= u64::MAX,
        carve::items_fault(items, write_limits, limits) is None,
    ensures
        log_laws::payload_fits(varint::varint(items.len()), limits),
{
    batch_apply::lemma_item_admitted(items, write_limits, limits, 0);
    varint::lemma_varint_len(items.len());
    varint::lemma_varint_len_bound(items.len());
    let size = match items[0] {
        ItemView::Put { id, contents, attrs } => admission::record_size(id, contents, attrs),
        ItemView::Delete { id } => admission::delete_size(id),
    };
    lemma_charge_admits(
        varint::varint(items.len()).len(),
        size,
        write_limits,
        limits,
        Some(0usize),
    );
}

} // verus!
