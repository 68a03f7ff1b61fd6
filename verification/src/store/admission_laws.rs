//! Laws of admission: what is accepted, what a refusal says, and what staged mutations weigh.

use crate::read_limits;
use crate::read_limits::{ReadAdmissionError, ReadLimits};
use crate::store::admission;
use crate::store::admission::{SpanView, SpansView, WriteLimits};
use crate::store::carve;
use crate::store::carve::ItemView;
use crate::store::engine;
use crate::store::sum_laws;
use crate::types::{AttrView, ContentView, OpView, RecordView};
use crate::varint;
use vstd::prelude::*;
use vstd::utf8::*;

verus! {

// ---------------------------------------------------------------------------------------------
// What is accepted.
// ---------------------------------------------------------------------------------------------
/// Whether a name is not empty and no longer than names may be.
pub open spec fn name_ok(name: Seq<char>, limits: WriteLimits) -> bool {
    name.len() > 0 && encode_utf8(name).len() <= limits.max_identifier_bytes
}

/// Whether a reader admits so many bytes, stored and decoded.
pub open spec fn readable(bytes: nat, r: ReadLimits) -> bool {
    bytes <= r.max_stored_frame_bytes && bytes <= r.max_decoded_frame_bytes
}

/// Whether every piece that spans hold is one that the format can name and a reader admits.
pub open spec fn pieces_ok(spans: Seq<SpanView>, r: ReadLimits) -> bool {
    forall|i: int|
        0 <= i < spans.len() ==> (#[trigger] spans[i] matches SpanView::Piece(b) ==> b.len()
            <= u32::MAX && (b.len() > 0 ==> readable(b.len(), r)))
}

/// Whether a record's names are usable and its content values each have a name of their own.
pub open spec fn names_ok(
    id: Seq<char>,
    contents: Seq<SpansView>,
    attrs: Seq<(Seq<char>, AttrView)>,
    limits: WriteLimits,
) -> bool {
    &&& name_ok(id, limits)
    &&& forall|i: int| 0 <= i < attrs.len() ==> name_ok((#[trigger] attrs[i]).0, limits)
    &&& forall|i: int| 0 <= i < contents.len() ==> name_ok((#[trigger] contents[i]).name, limits)
    &&& forall|i: int, j: int|
        0 <= i < j < contents.len() ==> (#[trigger] contents[i]).name != (
        #[trigger] contents[j]).name
}

/// Whether a charge is within what a record may take, and within what a reader admits.
pub open spec fn charge_ok(size: nat, limits: WriteLimits, r: ReadLimits) -> bool {
    let held = sum_laws::held_at(size, u64::MAX as nat);
    held <= limits.max_record_bytes && readable(held, r)
}

proof fn lemma_attrs(
    attrs: Seq<(Seq<char>, AttrView)>,
    limits: WriteLimits,
    item: Option<usize>,
)
    ensures
        admission::attrs_fault(attrs, limits, item) is None <==> forall|i: int|
            0 <= i < attrs.len() ==> name_ok((#[trigger] attrs[i]).0, limits),
    decreases attrs.len(),
{
    if attrs.len() > 0 {
        let rest = attrs.drop_first();
        lemma_attrs(rest, limits, item);
        if admission::attrs_fault(attrs, limits, item) is None {
            assert forall|i: int| 0 <= i < attrs.len() implies name_ok(
                (#[trigger] attrs[i]).0,
                limits,
            ) by {
                if i > 0 {
                    assert(rest[i - 1] == attrs[i]);
                }
            }
        }
        if forall|i: int| 0 <= i < attrs.len() ==> name_ok((#[trigger] attrs[i]).0, limits) {
            assert(name_ok(attrs[0].0, limits));
            assert forall|i: int| 0 <= i < rest.len() implies name_ok(
                (#[trigger] rest[i]).0,
                limits,
            ) by {
                assert(rest[i] == attrs[i + 1]);
            }
        }
    }
}

proof fn lemma_spans(spans: Seq<SpanView>, r: ReadLimits)
    requires
        forall|i: int|
            0 <= i < spans.len() ==> admission::span_bytes(#[trigger] spans[i]).len() <= u64::MAX,
    ensures
        admission::spans_fault(spans, r) is None <==> pieces_ok(spans, r),
    decreases spans.len(),
{
    if spans.len() > 0 {
        let front = spans.drop_last();
        assert forall|i: int| 0 <= i < front.len() implies admission::span_bytes(
            #[trigger] front[i],
        ).len() <= u64::MAX by {
            assert(front[i] == spans[i]);
        }
        lemma_spans(front, r);
        let s = spans.last();
        assert(s == spans[spans.len() - 1]);
        assert(admission::span_fault(s, r) is None <==> (s matches SpanView::Piece(b) ==> b.len()
            <= u32::MAX && (b.len() > 0 ==> readable(b.len(), r))));
        if pieces_ok(spans, r) {
            assert forall|i: int| 0 <= i < front.len() implies (#[trigger] front[i] matches SpanView::Piece(b)
                ==> b.len() <= u32::MAX && (b.len() > 0 ==> readable(b.len(), r))) by {
                assert(front[i] == spans[i]);
            }
        }
        if pieces_ok(front, r) && admission::span_fault(s, r) is None {
            assert forall|i: int| 0 <= i < spans.len() implies (#[trigger] spans[i] matches SpanView::Piece(b)
                ==> b.len() <= u32::MAX && (b.len() > 0 ==> readable(b.len(), r))) by {
                if i < front.len() {
                    assert(front[i] == spans[i]);
                }
            }
        }
    }
}

/// Whether spans can be held in memory.
pub open spec fn spans_fit(contents: Seq<SpansView>) -> bool {
    forall|c: int, i: int|
        0 <= c < contents.len() && 0 <= i < contents[c].spans.len() ==> admission::span_bytes(
            #[trigger] contents[c].spans[i],
        ).len() <= u64::MAX
}

proof fn lemma_inputs(
    contents: Seq<SpansView>,
    limits: WriteLimits,
    r: ReadLimits,
    item: Option<usize>,
    lengths_first: bool,
)
    requires
        spans_fit(contents),
    ensures
        admission::inputs_fault(contents, limits, r, item, lengths_first) is None <==> {
            &&& forall|i: int|
                0 <= i < contents.len() ==> name_ok((#[trigger] contents[i]).name, limits)
            &&& forall|i: int, j: int|
                0 <= i < j < contents.len() ==> (#[trigger] contents[i]).name != (
                #[trigger] contents[j]).name
            &&& forall|i: int|
                0 <= i < contents.len() ==> pieces_ok((#[trigger] contents[i]).spans, r)
        },
    decreases contents.len(),
{
    if contents.len() > 0 {
        let front = contents.drop_last();
        let n = contents.len() - 1;
        let c = contents[n];
        assert(spans_fit(front)) by {
            assert forall|k: int, i: int|
                0 <= k < front.len() && 0 <= i < front[k].spans.len() implies admission::span_bytes(
                #[trigger] front[k].spans[i],
            ).len() <= u64::MAX by {
                assert(front[k] == contents[k]);
                assert(admission::span_bytes(contents[k].spans[i]).len() <= u64::MAX);
            }
        }
        lemma_inputs(front, limits, r, item, lengths_first);
        assert forall|i: int| 0 <= i < c.spans.len() implies admission::span_bytes(
            #[trigger] c.spans[i],
        ).len() <= u64::MAX by {
            assert(contents[n].spans[i] == c.spans[i]);
        }
        lemma_spans(c.spans, r);
        if admission::any_too_long(c.spans) {
            let i = choose|i: int|
                0 <= i < c.spans.len() && admission::span_too_long(#[trigger] c.spans[i]);
            assert(!pieces_ok(c.spans, r)) by {
                assert(c.spans[i] is Piece);
            }
        }
        let good = admission::inputs_fault(contents, limits, r, item, lengths_first) is None;
        if good {
            assert forall|i: int| 0 <= i < contents.len() implies name_ok(
                (#[trigger] contents[i]).name,
                limits,
            ) && pieces_ok(contents[i].spans, r) by {
                if i < n {
                    assert(front[i] == contents[i]);
                }
            }
            assert forall|i: int, j: int| 0 <= i < j < contents.len() implies (
            #[trigger] contents[i]).name != (#[trigger] contents[j]).name by {
                if j < n {
                    assert(front[i] == contents[i] && front[j] == contents[j]);
                }
            }
        }
        if (forall|i: int|
            0 <= i < contents.len() ==> name_ok((#[trigger] contents[i]).name, limits)) && (forall|
            i: int,
            j: int,
        |
            0 <= i < j < contents.len() ==> (#[trigger] contents[i]).name != (
            #[trigger] contents[j]).name) && (forall|i: int|
            0 <= i < contents.len() ==> pieces_ok((#[trigger] contents[i]).spans, r)) {
            assert forall|i: int| 0 <= i < front.len() implies name_ok(
                (#[trigger] front[i]).name,
                limits,
            ) && pieces_ok(front[i].spans, r) by {
                assert(front[i] == contents[i]);
            }
            assert forall|i: int, j: int| 0 <= i < j < front.len() implies (
            #[trigger] front[i]).name != (#[trigger] front[j]).name by {
                assert(front[i] == contents[i] && front[j] == contents[j]);
            }
            assert(name_ok(contents[n].name, limits) && pieces_ok(contents[n].spans, r));
            assert(!admission::input_repeats(contents, n)) by {
                if admission::input_repeats(contents, n) {
                    let j = choose|j: int|
                        0 <= j < n && (#[trigger] contents[j]).name == contents[n].name;
                    assert(contents[j].name != contents[n].name);
                }
            }
        }
    }
}

/// A record is admitted exactly where its names are usable, its content values each have a name of
/// their own, every piece is one that the format can name and a reader admits, and what it is
/// charged is within what a record may take and a reader admits.
pub proof fn lemma_record_admitted(
    id: Seq<char>,
    contents: Seq<SpansView>,
    attrs: Seq<(Seq<char>, AttrView)>,
    limits: WriteLimits,
    r: ReadLimits,
    item: Option<usize>,
    lengths_first: bool,
)
    requires
        spans_fit(contents),
    ensures
        admission::record_fault(id, contents, attrs, limits, r, item, lengths_first) is None <==> {
            &&& names_ok(id, contents, attrs, limits)
            &&& forall|i: int|
                0 <= i < contents.len() ==> pieces_ok((#[trigger] contents[i]).spans, r)
            &&& charge_ok(admission::record_size(id, contents, attrs), limits, r)
        },
{
    lemma_attrs(attrs, limits, item);
    lemma_inputs(contents, limits, r, item, lengths_first);
}

/// A deletion is admitted exactly where its id is usable and its frame within the limits.
pub proof fn lemma_deletion_admitted(
    id: Seq<char>,
    limits: WriteLimits,
    r: ReadLimits,
    item: Option<usize>,
)
    ensures
        admission::delete_fault(id, limits, r, item) is None <==> name_ok(id, limits) && charge_ok(
            admission::WAL_FRAME_OVERHEAD as nat + encode_utf8(id).len(),
            limits,
            r,
        ),
{
}

/// What one mutation of a batch is charged.
pub open spec fn charged(item: ItemView) -> nat {
    match item {
        ItemView::Put { id, contents, attrs } => sum_laws::held_at(
            admission::record_size(id, contents, attrs),
            u64::MAX as nat,
        ),
        ItemView::Delete { id } => sum_laws::held_at(
            admission::WAL_FRAME_OVERHEAD as nat + encode_utf8(id).len(),
            u64::MAX as nat,
        ),
    }
}

proof fn lemma_items_size(items: Seq<ItemView>)
    ensures
        carve::items_size(items) == sum_laws::sum(items.len(), |i: int| charged(items[i])),
    decreases items.len(),
{
    let n = items.len();
    let each = |i: int| charged(items[i]);
    if n > 0 {
        let front = items.drop_last();
        lemma_items_size(front);
        sum_laws::lemma_sum((n - 1) as nat, each);
        sum_laws::lemma_sum_same((n - 1) as nat, |i: int| charged(front[i]), each);
    } else {
        sum_laws::lemma_sum(0, each);
    }
}

proof fn lemma_items_fault(items: Seq<ItemView>, limits: WriteLimits, r: ReadLimits)
    ensures
        carve::items_fault(items, limits, r) is None <==> forall|i: int|
            0 <= i < items.len() ==> carve::item_fault(
                #[trigger] items[i],
                limits,
                r,
                i as usize,
            ) is None,
    decreases items.len(),
{
    if items.len() > 0 {
        let front = items.drop_last();
        let n = items.len() - 1;
        lemma_items_fault(front, limits, r);
        if carve::items_fault(items, limits, r) is None {
            assert forall|i: int| 0 <= i < items.len() implies carve::item_fault(
                #[trigger] items[i],
                limits,
                r,
                i as usize,
            ) is None by {
                if i < n {
                    assert(front[i] == items[i]);
                }
            }
        }
        if forall|i: int|
            0 <= i < items.len() ==> carve::item_fault(
                #[trigger] items[i],
                limits,
                r,
                i as usize,
            ) is None {
            assert(carve::item_fault(items[n], limits, r, n as usize) is None);
            assert forall|i: int| 0 <= i < front.len() implies carve::item_fault(
                #[trigger] front[i],
                limits,
                r,
                i as usize,
            ) is None by {
                assert(front[i] == items[i]);
            }
        }
    }
}

/// A batch is admitted exactly where it has no more mutations than a batch may, each of them would
/// be admitted alone, and all of them with the frame that completes the batch take no more than a
/// batch may.
pub proof fn lemma_batch_admitted(items: Seq<ItemView>, limits: WriteLimits, r: ReadLimits)
    ensures
        carve::batch_admission_fault(items, limits, r) is None <==> {
            &&& items.len() <= limits.max_batch_records
            &&& forall|i: int|
                0 <= i < items.len() ==> carve::item_fault(
                    #[trigger] items[i],
                    limits,
                    r,
                    i as usize,
                ) is None
            &&& sum_laws::held_at(
                admission::WAL_FRAME_OVERHEAD as nat + varint::varint_len(items.len())
                    + sum_laws::sum(items.len(), |i: int| charged(items[i])),
                u64::MAX as nat,
            ) <= limits.max_batch_bytes
        },
{
    lemma_items_fault(items, limits, r);
    lemma_items_size(items);
}

/// A policy is refused exactly where one of its ceilings admits nothing.
pub proof fn lemma_policy(limits: WriteLimits)
    ensures
        admission::limits_fault(limits) is None <==> limits.max_record_bytes > 0
            && limits.max_batch_bytes > 0 && limits.max_batch_records > 0
            && limits.max_identifier_bytes > 0,
{
}

/// A frame is refused exactly where it is over one of a reader's ceilings, and the refusal names the
/// size and the ceiling it is over, the stored one first.
pub proof fn lemma_frame_refused(limits: ReadLimits, stored: u64, decoded: u64)
    ensures
        read_limits::frame_refusal(limits, stored, decoded) is None <==> stored
            <= limits.max_stored_frame_bytes && decoded <= limits.max_decoded_frame_bytes,
        stored > limits.max_stored_frame_bytes ==> read_limits::frame_refusal(
            limits,
            stored,
            decoded,
        ) == Some(
            ReadAdmissionError::StoredFrameTooLarge {
                actual: stored,
                allowed: limits.max_stored_frame_bytes,
            },
        ),
        stored <= limits.max_stored_frame_bytes && decoded > limits.max_decoded_frame_bytes
            ==> read_limits::frame_refusal(limits, stored, decoded) == Some(
            ReadAdmissionError::DecodedFrameTooLarge {
                actual: decoded,
                allowed: limits.max_decoded_frame_bytes,
            },
        ),
{
}

// ---------------------------------------------------------------------------------------------
// What carved spans are.
// ---------------------------------------------------------------------------------------------
/// Spans that a carve yields are the value again, end to end.
pub proof fn lemma_carve_whole(bytes: Seq<u8>, bounds: Seq<(usize, bool)>, n: nat)
    requires
        admission::carve_covers(bytes.len(), bounds),
        n <= bounds.len(),
    ensures
        admission::spans_bytes(admission::carve_spans(bytes, bounds).take(n as int)) == bytes.take(
            admission::carve_start(bounds, n as int) as int,
        ),
        n == bounds.len() ==> admission::spans_bytes(admission::carve_spans(bytes, bounds))
            == bytes,
    decreases n,
{
    let spans = admission::carve_spans(bytes, bounds);
    let now = spans.take(n as int);
    if n > 0 {
        let k = n - 1;
        lemma_carve_whole(bytes, bounds, k as nat);
        assert(now.drop_last() =~= spans.take(k));
        assert(now.last() == spans[k]);
        let (lo, hi) = (admission::carve_start(bounds, k) as int, bounds[k].0 as int);
        assert(lo <= bounds[k].0 <= bytes.len());
        if k > 0 {
            assert(bounds[k - 1].0 <= bytes.len());
        }
        assert(bytes.take(lo) + bytes.subrange(lo, hi) =~= bytes.take(hi));
    } else {
        assert(now =~= Seq::<SpanView>::empty());
        assert(bytes.take(0) =~= Seq::<u8>::empty());
    }
    if n == bounds.len() {
        assert(now =~= spans);
        assert(bytes.take(bytes.len() as int) =~= bytes);
    }
}

// ---------------------------------------------------------------------------------------------
// What staged mutations weigh.
// ---------------------------------------------------------------------------------------------
/// What one step of a program weighs.
pub open spec fn step_weight(op: OpView) -> nat {
    match op {
        OpView::Lit(b) => b.len() + 8,
        OpView::Piece { .. } => 40,
    }
}

/// What one content value weighs: its name and its steps.
pub open spec fn value_weight(c: ContentView) -> nat {
    encode_utf8(c.name).len() + sum_laws::sum(c.ops.len(), |i: int| step_weight(c.ops[i]))
}

proof fn lemma_ops_weight(ops: Seq<OpView>)
    ensures
        engine::ops_weight(ops) == sum_laws::sum(ops.len(), |i: int| step_weight(ops[i])),
    decreases ops.len(),
{
    let n = ops.len();
    let each = |i: int| step_weight(ops[i]);
    if n > 0 {
        let front = ops.drop_last();
        lemma_ops_weight(front);
        sum_laws::lemma_sum((n - 1) as nat, each);
        sum_laws::lemma_sum_same((n - 1) as nat, |i: int| step_weight(front[i]), each);
    } else {
        sum_laws::lemma_sum(0, each);
    }
}

proof fn lemma_contents_weight(contents: Seq<ContentView>)
    ensures
        engine::contents_weight(contents) == sum_laws::sum(
            contents.len(),
            |i: int| value_weight(contents[i]),
        ),
    decreases contents.len(),
{
    let n = contents.len();
    let each = |i: int| value_weight(contents[i]);
    if n > 0 {
        let front = contents.drop_last();
        lemma_contents_weight(front);
        lemma_ops_weight(contents.last().ops);
        sum_laws::lemma_sum((n - 1) as nat, each);
        sum_laws::lemma_sum_same((n - 1) as nat, |i: int| value_weight(front[i]), each);
    } else {
        sum_laws::lemma_sum(0, each);
    }
}

proof fn lemma_attrs_weight(attrs: Seq<(Seq<char>, AttrView)>)
    ensures
        engine::attrs_weight(attrs) == sum_laws::sum(
            attrs.len(),
            |i: int| encode_utf8(attrs[i].0).len() + 24,
        ),
    decreases attrs.len(),
{
    let n = attrs.len();
    let each = |i: int| encode_utf8(attrs[i].0).len() + 24;
    if n > 0 {
        let front = attrs.drop_last();
        lemma_attrs_weight(front);
        sum_laws::lemma_sum((n - 1) as nat, each);
        sum_laws::lemma_sum_same(
            (n - 1) as nat,
            |i: int| encode_utf8(front[i].0).len() + 24,
            each,
        );
    } else {
        sum_laws::lemma_sum(0, each);
    }
}

/// A staged record weighs its id, the name and the steps of each content value, and 24 bytes beside
/// the name of each attribute.
pub proof fn lemma_weight(r: RecordView)
    ensures
        engine::record_weight(r) == encode_utf8(r.id).len() + sum_laws::sum(
            r.contents.len(),
            |i: int| value_weight(r.contents[i]),
        ) + sum_laws::sum(r.attrs.len(), |i: int| encode_utf8(r.attrs[i].0).len() + 24),
{
    lemma_contents_weight(r.contents);
    lemma_attrs_weight(r.attrs);
}

} // verus!
