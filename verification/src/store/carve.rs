//! From carved spans to content programs, and batches of them.

use crate::hash;
use crate::read_limits::ReadLimits;
use crate::store::admission;
use crate::store::admission::{
    ContentSpans, IdentifierKind, OwnedContent, RefusalView, Span, SpanView, SpansView,
    WriteAdmissionError, WriteError, WriteFault, WriteLimits, WAL_FRAME_OVERHEAD,
};
use crate::bytes;
use crate::types;
use crate::types::{
    AttrValue, AttrView, Content, ContentHash, ContentOp, ContentView, OpView, PieceHash,
    BODY_CONTENT,
};
use crate::varint;
use vstd::prelude::*;
use vstd::slice::slice_to_vec;

verus! {

/// The operation a span becomes. An empty piece is inlined.
pub open spec fn span_op(s: SpanView) -> OpView {
    let b = admission::span_bytes(s);
    if admission::is_piece(s) {
        OpView::Piece { hash: hash::blake3_digest(b), len: b.len() as u32 }
    } else {
        OpView::Lit(b)
    }
}

/// The program of a carved value.
pub open spec fn span_ops(spans: Seq<SpanView>) -> Seq<OpView> {
    Seq::new(spans.len(), |i: int| span_op(spans[i]))
}

/// The content value that carved spans become.
pub open spec fn carved(c: SpansView) -> ContentView {
    ContentView {
        name: c.name,
        ops: span_ops(c.spans),
        identity: Some(hash::blake3_digest(admission::spans_bytes(c.spans))),
    }
}

/// The content values that carved inputs become.
pub open spec fn carved_all(contents: Seq<SpansView>) -> Seq<ContentView> {
    Seq::new(contents.len(), |i: int| carved(contents[i]))
}

/// The content value of carved spans.
pub fn carve_content<'a>(input: &ContentSpans<'a>) -> (r: Content)
    requires
        !admission::any_too_long(input@.spans),
    ensures
        r@ == carved(input@),
{
    let ghost all = input@.spans;
    let mut ops: Vec<ContentOp> = Vec::new();
    let mut value: Vec<u8> = Vec::new();
    let mut i: usize = 0;
    assert(all.take(0) =~= Seq::<SpanView>::empty());
    assert(value@ =~= Seq::<u8>::empty());
    while i < input.spans.len()
        invariant
            i <= input.spans@.len(),
            all == input@.spans,
            !admission::any_too_long(all),
            ops@.len() == i,
            forall|k: int| 0 <= k < i ==> (#[trigger] ops@[k])@ == span_op(all[k]),
            value@ == admission::spans_bytes(all.take(i as int)),
        decreases input.spans.len() - i,
    {
        proof {
            let next = all.take(i + 1);
            assert(next.drop_last() =~= all.take(i as int));
            assert(next.last() == input.spans@[i as int]@);
            assert(!admission::span_too_long(all[i as int]));
        }
        match input.spans[i] {
            Span::Lit(b) => {
                bytes::append_bytes(&mut value, b);
                ops.push(ContentOp::Lit(slice_to_vec(b)));
            },
            Span::Piece(b) => {
                bytes::append_bytes(&mut value, b);
                if b.len() == 0 {
                    let empty: Vec<u8> = Vec::new();
                    assert(empty@ =~= b@);
                    ops.push(ContentOp::Lit(empty));
                } else {
                    ops.push(ContentOp::Piece { hash: PieceHash::of(b), len: b.len() as u32 });
                }
            },
        }
        i = i + 1;
    }
    assert(all.take(i as int) =~= all);
    assert(types::ops_view(ops@) =~= span_ops(all));
    Content::identified(input.name, ops, ContentHash::of(value.as_slice()))
}

// ---------------------------------------------------------------------------------------------
// Batches.
// ---------------------------------------------------------------------------------------------
/// One staged mutation.
pub enum BatchItem {
    Put { id: String, contents: Vec<OwnedContent>, attrs: Vec<(String, AttrValue)> },
    Delete { id: String },
}

/// View of a [`BatchItem`].
pub enum ItemView {
    Put { id: Seq<char>, contents: Seq<SpansView>, attrs: Seq<(Seq<char>, AttrView)> },
    Delete { id: Seq<char> },
}

impl View for BatchItem {
    type V = ItemView;

    open spec fn view(&self) -> ItemView {
        match self {
            BatchItem::Put { id, contents, attrs } => ItemView::Put {
                id: id@,
                contents: admission::owned_view(contents@),
                attrs: types::attrs_view(attrs@),
            },
            BatchItem::Delete { id } => ItemView::Delete { id: id@ },
        }
    }
}

/// A group of writes that is applied atomically: after a crash either every member replays or
/// none does.
///
/// A batch is pure staging: it owns copies of its spans and changes nothing until it is applied.
pub struct Batch {
    pub items: Vec<BatchItem>,
}

impl View for Batch {
    type V = Seq<ItemView>;

    open spec fn view(&self) -> Seq<ItemView> {
        Seq::new(self.items@.len(), |i: int| self.items@[i]@)
    }
}

/// Why a staged record is refused before the batch owns its bytes.
pub open spec fn staging_fault(
    id: Seq<char>,
    contents: Seq<SpansView>,
    attrs: Seq<(Seq<char>, AttrView)>,
    item: Option<usize>,
) -> Option<WriteFault> {
    match content_inputs_fault(id, contents, item) {
        Some(e) => Some(e),
        None => if exists|i: int| 0 <= i < attrs.len() && (#[trigger] attrs[i]).0.len() == 0 {
            Some(
                WriteFault::Admission(
                    RefusalView::EmptyIdentifier { kind: IdentifierKind::AttributeName, item },
                ),
            )
        } else {
            None
        },
    }
}

/// Why a content map is refused: an empty id, or the first faulty content value.
pub open spec fn content_inputs_fault(
    id: Seq<char>,
    contents: Seq<SpansView>,
    item: Option<usize>,
) -> Option<WriteFault> {
    if id.len() == 0 {
        Some(
            WriteFault::Admission(
                RefusalView::EmptyIdentifier { kind: IdentifierKind::RecordId, item },
            ),
        )
    } else {
        content_map_fault(contents, item)
    }
}

/// The first content value with an empty or repeated name or a span that is too long.
pub open spec fn content_map_fault(contents: Seq<SpansView>, item: Option<usize>) -> Option<
    WriteFault,
>
    decreases contents.len(),
{
    if contents.len() == 0 {
        None
    } else {
        let c = contents.last();
        match content_map_fault(contents.drop_last(), item) {
            Some(e) => Some(e),
            None => if c.name.len() == 0 {
                Some(
                    WriteFault::Admission(
                        RefusalView::EmptyIdentifier { kind: IdentifierKind::ContentName, item },
                    ),
                )
            } else if admission::input_repeats(contents, contents.len() - 1) {
                Some(
                    WriteFault::Admission(RefusalView::DuplicateContentName { item, name: c.name }),
                )
            } else if admission::any_too_long(c.spans) {
                Some(WriteFault::PieceTooLong)
            } else {
                None
            },
        }
    }
}

proof fn lemma_content_map_prefix(contents: Seq<SpansView>, k: int, item: Option<usize>)
    requires
        0 <= k <= contents.len(),
        content_map_fault(contents.take(k), item) is Some,
    ensures
        content_map_fault(contents, item) == content_map_fault(contents.take(k), item),
    decreases contents.len(),
{
    if k < contents.len() {
        assert(contents.drop_last().take(k) =~= contents.take(k));
        lemma_content_map_prefix(contents.drop_last(), k, item);
    } else {
        assert(contents.take(k) =~= contents);
    }
}

/// Judge a content map without any size limit.
pub fn validate_content_inputs<'a>(
    id: &str,
    contents: &[ContentSpans<'a>],
    item: Option<usize>,
) -> (r: Result<(), WriteError>)
    ensures
        match r {
            Ok(()) => content_inputs_fault(id@, admission::inputs_view(contents@), item) is None,
            Err(e) => content_inputs_fault(id@, admission::inputs_view(contents@), item) == Some(
                e@,
            ),
        },
{
    if id.is_empty() {
        return Err(
            WriteError::Admission(
                WriteAdmissionError::EmptyIdentifier { kind: IdentifierKind::RecordId, item },
            ),
        );
    }
    let ghost all = admission::inputs_view(contents@);
    let mut i: usize = 0;
    while i < contents.len()
        invariant
            i <= contents@.len(),
            all == admission::inputs_view(contents@),
            id@.len() > 0,
            content_map_fault(all.take(i as int), item) is None,
        decreases contents.len() - i,
    {
        let ghost next = all.take(i + 1);
        let ghost cv = contents@[i as int]@;
        assert(next.drop_last() =~= all.take(i as int));
        assert(next.last() == cv);
        let content = &contents[i];
        if content.name.is_empty() {
            proof {
                lemma_content_map_prefix(all, i + 1, item);
            }
            return Err(
                WriteError::Admission(
                    WriteAdmissionError::EmptyIdentifier {
                        kind: IdentifierKind::ContentName,
                        item,
                    },
                ),
            );
        }
        let mut j: usize = 0;
        while j < i
            invariant
                j <= i < contents@.len(),
                all == admission::inputs_view(contents@),
                id@.len() > 0,
                next == all.take(i + 1),
                next.drop_last() == all.take(i as int),
                next.last() == cv,
                cv == contents@[i as int]@,
                content.name@ == cv.name,
                cv.name.len() > 0,
                content_map_fault(all.take(i as int), item) is None,
                forall|k: int| 0 <= k < j ==> (#[trigger] next[k]).name != next[i as int].name,
            decreases i - j,
        {
            if bytes::str_eq(contents[j].name, content.name) {
                proof {
                    assert(next[j as int].name == next[i as int].name);
                    assert(admission::input_repeats(next, next.len() - 1));
                    lemma_content_map_prefix(all, i + 1, item);
                }
                return Err(
                    WriteError::Admission(
                        WriteAdmissionError::DuplicateContentName {
                            item,
                            name: content.name.to_owned(),
                        },
                    ),
                );
            }
            j = j + 1;
        }
        assert(!admission::input_repeats(next, next.len() - 1));
        match admission::validate_spans(content.spans.as_slice()) {
            Ok(()) => {},
            Err(e) => {
                proof {
                    lemma_content_map_prefix(all, i + 1, item);
                }
                return Err(e);
            },
        }
        i = i + 1;
    }
    assert(all.take(i as int) =~= all);
    Ok(())
}

fn attrs_named(attrs: &[(String, AttrValue)]) -> (r: bool)
    ensures
        r == !(exists|i: int|
            0 <= i < attrs@.len() && (#[trigger] types::attrs_view(attrs@)[i]).0.len() == 0),
{
    let ghost all = types::attrs_view(attrs@);
    let mut i: usize = 0;
    while i < attrs.len()
        invariant
            i <= attrs@.len(),
            all == types::attrs_view(attrs@),
            forall|k: int| 0 <= k < i ==> (#[trigger] all[k]).0.len() > 0,
        decreases attrs.len() - i,
    {
        if attrs[i].0.as_str().is_empty() {
            assert(all[i as int].0.len() == 0);
            return false;
        }
        i = i + 1;
    }
    true
}

impl Default for Batch {
    fn default() -> (r: Batch)
        ensures
            r@ == Seq::<ItemView>::empty(),
    {
        let r = Batch { items: Vec::new() };
        assert(r@ =~= Seq::<ItemView>::empty());
        r
    }
}

impl Batch {
    /// An empty batch.
    pub fn new() -> (r: Batch)
        ensures
            r@ == Seq::<ItemView>::empty(),
    {
        let r = Batch { items: Vec::new() };
        assert(r@ =~= Seq::<ItemView>::empty());
        r
    }

    /// Stage a put of one body.
    pub fn put<'a>(&mut self, id: &str, spans: &[Span<'a>], attrs: Vec<(String, AttrValue)>)
        ensures
            final(self)@ == old(self)@.push(
                ItemView::Put {
                    id: id@,
                    contents: seq![
                        SpansView {
                            name: BODY_CONTENT@,
                            spans: admission::spans_view(spans@),
                        },
                    ],
                    attrs: types::attrs_view(attrs@),
                },
            ),
    {
        let ghost before = self@;
        let mut contents: Vec<OwnedContent> = Vec::new();
        contents.push(
            OwnedContent { name: BODY_CONTENT.to_owned(), spans: admission::own_spans(spans) },
        );
        let ghost want = seq![
            SpansView { name: BODY_CONTENT@, spans: admission::spans_view(spans@) },
        ];
        assert(admission::owned_view(contents@) =~= want);
        let item = BatchItem::Put { id: id.to_owned(), contents, attrs };
        let ghost v = item@;
        self.items.push(item);
        assert(self@ =~= before.push(v));
    }

    /// Stage a general record. Invalid ids or content maps are refused before the batch owns
    /// bytes.
    pub fn put_record<'a>(
        &mut self,
        id: &str,
        contents: &[ContentSpans<'a>],
        attrs: Vec<(String, AttrValue)>,
    ) -> (r: Result<(), WriteError>)
        ensures
            match r {
                Ok(()) => {
                    &&& staging_fault(
                        id@,
                        admission::inputs_view(contents@),
                        types::attrs_view(attrs@),
                        Some(old(self).items.len()),
                    ) is None
                    &&& final(self)@ == old(self)@.push(
                        ItemView::Put {
                            id: id@,
                            contents: admission::inputs_view(contents@),
                            attrs: types::attrs_view(attrs@),
                        },
                    )
                },
                Err(e) => {
                    &&& final(self)@ == old(self)@
                    &&& staging_fault(
                        id@,
                        admission::inputs_view(contents@),
                        types::attrs_view(attrs@),
                        Some(old(self).items.len()),
                    ) == Some(e@)
                },
            },
    {
        let ghost before = self@;
        let item: Option<usize> = Some(self.items.len());
        match validate_content_inputs(id, contents, item) {
            Ok(()) => {},
            Err(e) => {
                return Err(e);
            },
        }
        if !attrs_named(attrs.as_slice()) {
            return Err(
                WriteError::Admission(
                    WriteAdmissionError::EmptyIdentifier {
                        kind: IdentifierKind::AttributeName,
                        item,
                    },
                ),
            );
        }
        let mut owned: Vec<OwnedContent> = Vec::new();
        let mut i: usize = 0;
        while i < contents.len()
            invariant
                i <= contents@.len(),
                owned@.len() == i,
                forall|k: int| 0 <= k < i ==> (#[trigger] owned@[k])@ == contents@[k]@,
            decreases contents.len() - i,
        {
            owned.push(
                OwnedContent {
                    name: contents[i].name.to_owned(),
                    spans: admission::own_spans(contents[i].spans.as_slice()),
                },
            );
            i = i + 1;
        }
        assert(admission::owned_view(owned@) =~= admission::inputs_view(contents@));
        let staged = BatchItem::Put { id: id.to_owned(), contents: owned, attrs };
        let ghost v = staged@;
        self.items.push(staged);
        assert(self@ =~= before.push(v));
        Ok(())
    }

    /// Stage a deletion.
    pub fn delete(&mut self, id: &str)
        ensures
            final(self)@ == old(self)@.push(ItemView::Delete { id: id@ }),
    {
        let ghost before = self@;
        let staged = BatchItem::Delete { id: id.to_owned() };
        let ghost v = staged@;
        self.items.push(staged);
        assert(self@ =~= before.push(v));
    }

    /// Staged mutations.
    pub fn len(&self) -> (r: usize)
        ensures
            r == self@.len(),
    {
        self.items.len()
    }

    /// Whether nothing is staged.
    pub fn is_empty(&self) -> (r: bool)
        ensures
            r == (self@.len() == 0),
    {
        self.items.len() == 0
    }
}

/// The charge of one staged mutation.
pub open spec fn item_size(item: ItemView) -> nat {
    match item {
        ItemView::Put { id, contents, attrs } => admission::sat(
            admission::record_size(id, contents, attrs),
        ) as nat,
        ItemView::Delete { id } => admission::sat(admission::delete_size(id)) as nat,
    }
}

/// The charge of the first staged mutations.
pub open spec fn items_size(items: Seq<ItemView>) -> nat
    decreases items.len(),
{
    if items.len() == 0 {
        0
    } else {
        items_size(items.drop_last()) + item_size(items.last())
    }
}

/// Why one staged mutation is refused.
pub open spec fn item_fault(
    item: ItemView,
    limits: WriteLimits,
    read_limits: ReadLimits,
    index: usize,
) -> Option<WriteFault> {
    match item {
        ItemView::Put { id, contents, attrs } => admission::record_fault(
            id,
            contents,
            attrs,
            limits,
            read_limits,
            Some(index),
            false,
        ),
        ItemView::Delete { id } => admission::delete_fault(id, limits, read_limits, Some(index)),
    }
}

/// The first refused mutation.
pub open spec fn items_fault(
    items: Seq<ItemView>,
    limits: WriteLimits,
    read_limits: ReadLimits,
) -> Option<WriteFault>
    decreases items.len(),
{
    if items.len() == 0 {
        None
    } else {
        match items_fault(items.drop_last(), limits, read_limits) {
            Some(e) => Some(e),
            None => item_fault(items.last(), limits, read_limits, (items.len() - 1) as usize),
        }
    }
}

/// The charge of a batch: its members and the completion frame.
pub open spec fn batch_size(items: Seq<ItemView>) -> nat {
    WAL_FRAME_OVERHEAD as nat + varint::varint_len(items.len()) + items_size(items)
}

/// Why a batch is refused.
pub open spec fn batch_admission_fault(
    items: Seq<ItemView>,
    limits: WriteLimits,
    read_limits: ReadLimits,
) -> Option<WriteFault> {
    if items.len() > limits.max_batch_records {
        Some(
            WriteFault::Admission(
                RefusalView::TooManyBatchRecords {
                    actual: items.len(),
                    allowed: limits.max_batch_records,
                },
            ),
        )
    } else {
        match items_fault(items, limits, read_limits) {
            Some(e) => Some(e),
            None => if admission::sat(batch_size(items)) > limits.max_batch_bytes {
                Some(
                    WriteFault::Admission(
                        RefusalView::BatchTooLarge {
                            actual: admission::sat(batch_size(items)),
                            allowed: limits.max_batch_bytes,
                        },
                    ),
                )
            } else {
                None
            },
        }
    }
}

proof fn lemma_items_fault_prefix(
    items: Seq<ItemView>,
    k: int,
    limits: WriteLimits,
    read_limits: ReadLimits,
)
    requires
        0 <= k <= items.len(),
        items_fault(items.take(k), limits, read_limits) is Some,
    ensures
        items_fault(items, limits, read_limits) == items_fault(items.take(k), limits, read_limits),
    decreases items.len(),
{
    if k < items.len() {
        assert(items.drop_last().take(k) =~= items.take(k));
        lemma_items_fault_prefix(items.drop_last(), k, limits, read_limits);
    } else {
        assert(items.take(k) =~= items);
    }
}

/// Charge a complete batch before any member changes anything.
pub fn batch_admission_bytes(batch: &Batch, limits: &WriteLimits, read_limits: &ReadLimits) -> (r:
    Result<u64, WriteError>)
    ensures
        match r {
            Ok(size) => batch_admission_fault(batch@, *limits, *read_limits) is None && size
                == admission::sat(batch_size(batch@)),
            Err(e) => batch_admission_fault(batch@, *limits, *read_limits) == Some(e@),
        },
{
    if batch.items.len() > limits.max_batch_records {
        return Err(
            WriteError::Admission(
                WriteAdmissionError::TooManyBatchRecords {
                    actual: batch.items.len(),
                    allowed: limits.max_batch_records,
                },
            ),
        );
    }
    let ghost all = batch@;
    let mut size: u64 = WAL_FRAME_OVERHEAD.saturating_add(
        admission::varint_bytes(batch.items.len() as u64),
    );
    let ghost head = WAL_FRAME_OVERHEAD as nat + varint::varint_len(all.len());
    let mut i: usize = 0;
    assert(all.take(0) =~= Seq::<ItemView>::empty());
    while i < batch.items.len()
        invariant
            i <= batch.items@.len(),
            all == batch@,
            items_fault(all.take(i as int), *limits, *read_limits) is None,
            batch.items@.len() <= limits.max_batch_records,
            size == admission::sat(head + items_size(all.take(i as int))),
        decreases batch.items.len() - i,
    {
        let ghost next = all.take(i + 1);
        assert(next.drop_last() =~= all.take(i as int));
        assert(next.last() == batch.items@[i as int]@);
        let charged = match &batch.items[i] {
            BatchItem::Put { id, contents, attrs } => admission::owned_record_admission_bytes(
                id.as_str(),
                contents.as_slice(),
                attrs.as_slice(),
                limits,
                read_limits,
                Some(i),
            ),
            BatchItem::Delete { id } => admission::delete_admission_bytes(
                id.as_str(),
                limits,
                read_limits,
                Some(i),
            ),
        };
        match charged {
            Ok(n) => {
                admission::add_size(&mut size, n);
            },
            Err(e) => {
                proof {
                    lemma_items_fault_prefix(all, i + 1, *limits, *read_limits);
                }
                return Err(e);
            },
        }
        i = i + 1;
    }
    assert(all.take(i as int) =~= all);
    if size > limits.max_batch_bytes {
        return Err(
            WriteError::Admission(
                WriteAdmissionError::BatchTooLarge {
                    actual: size,
                    allowed: limits.max_batch_bytes,
                },
            ),
        );
    }
    Ok(size)
}

} // verus!
