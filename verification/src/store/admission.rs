//! What a writer lets in.
//!
//! A record is charged the length of the longest frame it could need: every piece is counted as
//! if it were new. The charge is therefore independent of what was stored before, and a complete
//! batch is charged before the first of its members changes anything.

use crate::read_limits;
use crate::read_limits::{ReadAdmissionError, ReadLimits};
use crate::bytes;
use crate::types;
use crate::types::{AttrValue, AttrView};
use crate::varint;
use vstd::prelude::*;
use vstd::utf8::*;

verus! {

/// Per-writer admission policy. Reopening with different values changes which future writes are
/// accepted and never changes records already stored.
#[derive(Clone, Copy, Debug, PartialEq, Eq, Structural)]
pub struct WriteLimits {
    /// Worst-case complete frame bytes for one put or delete.
    pub max_record_bytes: u64,
    /// Sum of member frames plus the completion frame for one atomic batch.
    pub max_batch_bytes: u64,
    /// Number of ordered put/delete members in one atomic batch.
    pub max_batch_records: usize,
    /// UTF-8 bytes in a record id, attribute name, or content name.
    pub max_identifier_bytes: usize,
}

/// Default worst-case frame ceiling for one record: 64 MiB.
pub const DEFAULT_MAX_RECORD_BYTES: u64 = 0x400_0000;

/// Default worst-case frame ceiling for one atomic batch: 256 MiB.
pub const DEFAULT_MAX_BATCH_BYTES: u64 = 0x1000_0000;

/// Default ordered member ceiling for one atomic batch.
pub const DEFAULT_MAX_BATCH_RECORDS: usize = 4_096;

/// Default UTF-8 byte ceiling for ids and names: 4 KiB.
pub const DEFAULT_MAX_IDENTIFIER_BYTES: usize = 4_096;

/// Bytes of a frame around its payload: tag, sequence, length and checksum.
pub const WAL_FRAME_OVERHEAD: u64 = 17;

/// Which name a refusal is about.
#[derive(Clone, Copy, Debug, PartialEq, Eq, Structural)]
pub enum IdentifierKind {
    RecordId,
    AttributeName,
    ContentName,
}

/// Write refusal classes. Invalid names and settings are caller errors; size and count refusals
/// are resource exhaustion and can be handled by splitting input or raising a limit.
#[allow(inconsistent_fields)]
#[derive(Debug, PartialEq, Eq)]
pub enum WriteAdmissionError {
    InvalidLimits(&'static str),
    EmptyIdentifier { kind: IdentifierKind, item: Option<usize> },
    IdentifierTooLong {
        kind: IdentifierKind,
        item: Option<usize>,
        actual: usize,
        allowed: usize,
    },
    DuplicateContentName { item: Option<usize>, name: String },
    RecordTooLarge { item: Option<usize>, actual: u64, allowed: u64 },
    BatchTooLarge { actual: u64, allowed: u64 },
    TooManyBatchRecords { actual: usize, allowed: usize },
}

/// Why an input is not written.
#[derive(Debug, PartialEq, Eq)]
pub enum WriteError {
    Admission(WriteAdmissionError),
    /// A read ceiling would refuse what the write puts down.
    Read(ReadAdmissionError),
    /// One folded piece exceeds the format's 32-bit length.
    PieceTooLong,
}

/// View of a [`WriteAdmissionError`].
#[allow(inconsistent_fields)]
pub enum RefusalView {
    InvalidLimits(Seq<char>),
    EmptyIdentifier { kind: IdentifierKind, item: Option<usize> },
    IdentifierTooLong { kind: IdentifierKind, item: Option<usize>, actual: nat, allowed: usize },
    DuplicateContentName { item: Option<usize>, name: Seq<char> },
    RecordTooLarge { item: Option<usize>, actual: u64, allowed: u64 },
    BatchTooLarge { actual: u64, allowed: u64 },
    TooManyBatchRecords { actual: nat, allowed: usize },
}

/// View of a [`WriteError`].
pub enum WriteFault {
    Admission(RefusalView),
    Read(ReadAdmissionError),
    PieceTooLong,
}

impl View for WriteAdmissionError {
    type V = RefusalView;

    open spec fn view(&self) -> RefusalView {
        match self {
            WriteAdmissionError::InvalidLimits(reason) => RefusalView::InvalidLimits(reason@),
            WriteAdmissionError::EmptyIdentifier { kind, item } => RefusalView::EmptyIdentifier {
                kind: *kind,
                item: *item,
            },
            WriteAdmissionError::IdentifierTooLong { kind, item, actual, allowed } =>
                RefusalView::IdentifierTooLong {
                kind: *kind,
                item: *item,
                actual: *actual as nat,
                allowed: *allowed,
            },
            WriteAdmissionError::DuplicateContentName { item, name } =>
                RefusalView::DuplicateContentName { item: *item, name: name@ },
            WriteAdmissionError::RecordTooLarge { item, actual, allowed } =>
                RefusalView::RecordTooLarge { item: *item, actual: *actual, allowed: *allowed },
            WriteAdmissionError::BatchTooLarge { actual, allowed } => RefusalView::BatchTooLarge {
                actual: *actual,
                allowed: *allowed,
            },
            WriteAdmissionError::TooManyBatchRecords { actual, allowed } =>
                RefusalView::TooManyBatchRecords { actual: *actual as nat, allowed: *allowed },
        }
    }
}

impl View for WriteError {
    type V = WriteFault;

    open spec fn view(&self) -> WriteFault {
        match self {
            WriteError::Admission(e) => WriteFault::Admission(e@),
            WriteError::Read(e) => WriteFault::Read(*e),
            WriteError::PieceTooLong => WriteFault::PieceTooLong,
        }
    }
}

impl Default for WriteLimits {
    fn default() -> (r: WriteLimits)
        ensures
            r == (WriteLimits {
                max_record_bytes: 67_108_864,
                max_batch_bytes: 268_435_456,
                max_batch_records: 4_096,
                max_identifier_bytes: 4_096,
            }),
    {
        WriteLimits {
            max_record_bytes: DEFAULT_MAX_RECORD_BYTES,
            max_batch_bytes: DEFAULT_MAX_BATCH_BYTES,
            max_batch_records: DEFAULT_MAX_BATCH_RECORDS,
            max_identifier_bytes: DEFAULT_MAX_IDENTIFIER_BYTES,
        }
    }
}

/// The first ceiling of a policy that admits nothing.
pub open spec fn limits_fault(limits: WriteLimits) -> Option<Seq<char>> {
    if limits.max_record_bytes == 0 {
        Some("max_record_bytes must be greater than zero"@)
    } else if limits.max_batch_bytes == 0 {
        Some("max_batch_bytes must be greater than zero"@)
    } else if limits.max_batch_records == 0 {
        Some("max_batch_records must be greater than zero"@)
    } else if limits.max_identifier_bytes == 0 {
        Some("max_identifier_bytes must be greater than zero"@)
    } else {
        None
    }
}

impl WriteLimits {
    /// This policy when every ceiling is usable.
    pub fn validate(self) -> (r: Result<WriteLimits, WriteAdmissionError>)
        ensures
            match r {
                Ok(limits) => limits == self && limits_fault(self) is None,
                Err(e) => limits_fault(self) matches Some(reason) && e@
                    == RefusalView::InvalidLimits(reason),
            },
    {
        if self.max_record_bytes == 0 {
            return Err(
                WriteAdmissionError::InvalidLimits("max_record_bytes must be greater than zero"),
            );
        }
        if self.max_batch_bytes == 0 {
            return Err(
                WriteAdmissionError::InvalidLimits("max_batch_bytes must be greater than zero"),
            );
        }
        if self.max_batch_records == 0 {
            return Err(
                WriteAdmissionError::InvalidLimits("max_batch_records must be greater than zero"),
            );
        }
        if self.max_identifier_bytes == 0 {
            return Err(
                WriteAdmissionError::InvalidLimits(
                    "max_identifier_bytes must be greater than zero",
                ),
            );
        }
        Ok(self)
    }
}

// ---------------------------------------------------------------------------------------------
// Carved input.
// ---------------------------------------------------------------------------------------------
/// A carved span handed to the store: content to fold, or bytes to inline.
#[derive(Clone, Copy)]
pub enum Span<'a> {
    /// Connective tissue too small to be worth folding.
    Lit(&'a [u8]),
    /// Content, deduplicated by identity across the whole store.
    Piece(&'a [u8]),
}

/// One named content value handed to the store. Its spans are already carved.
pub struct ContentSpans<'a> {
    pub name: &'a str,
    pub spans: Vec<Span<'a>>,
}

/// A span a batch owns.
pub enum OwnedSpan {
    Lit(Vec<u8>),
    Piece(Vec<u8>),
}

/// A content value a batch owns.
pub struct OwnedContent {
    pub name: String,
    pub spans: Vec<OwnedSpan>,
}

/// View of a span, borrowed or owned.
pub enum SpanView {
    Lit(Seq<u8>),
    Piece(Seq<u8>),
}

/// View of a content value's spans, borrowed or owned.
pub struct SpansView {
    pub name: Seq<char>,
    pub spans: Seq<SpanView>,
}

impl<'a> View for Span<'a> {
    type V = SpanView;

    open spec fn view(&self) -> SpanView {
        match self {
            Span::Lit(b) => SpanView::Lit(b@),
            Span::Piece(b) => SpanView::Piece(b@),
        }
    }
}

impl View for OwnedSpan {
    type V = SpanView;

    open spec fn view(&self) -> SpanView {
        match self {
            OwnedSpan::Lit(b) => SpanView::Lit(b@),
            OwnedSpan::Piece(b) => SpanView::Piece(b@),
        }
    }
}

/// Views of spans.
pub open spec fn spans_view<'a>(spans: Seq<Span<'a>>) -> Seq<SpanView> {
    Seq::new(spans.len(), |i: int| spans[i]@)
}

/// Views of owned spans.
pub open spec fn owned_spans_view(spans: Seq<OwnedSpan>) -> Seq<SpanView> {
    Seq::new(spans.len(), |i: int| spans[i]@)
}

impl<'a> View for ContentSpans<'a> {
    type V = SpansView;

    open spec fn view(&self) -> SpansView {
        SpansView { name: self.name@, spans: spans_view(self.spans@) }
    }
}

impl View for OwnedContent {
    type V = SpansView;

    open spec fn view(&self) -> SpansView {
        SpansView { name: self.name@, spans: owned_spans_view(self.spans@) }
    }
}

/// Views of content values.
pub open spec fn inputs_view<'a>(contents: Seq<ContentSpans<'a>>) -> Seq<SpansView> {
    Seq::new(contents.len(), |i: int| contents[i]@)
}

/// Views of owned content values.
pub open spec fn owned_view(contents: Seq<OwnedContent>) -> Seq<SpansView> {
    Seq::new(contents.len(), |i: int| contents[i]@)
}

impl<'a> ContentSpans<'a> {
    /// A content value with its carved spans.
    pub fn new(name: &'a str, spans: Vec<Span<'a>>) -> (r: ContentSpans<'a>)
        ensures
            r@ == (SpansView { name: name@, spans: spans_view(spans@) }),
    {
        ContentSpans { name, spans }
    }

    /// A content value whose spans are those of a carve that a host computed: each bound is the
    /// end of one span, `true` marks a piece.
    ///
    /// `None` where the bounds do not cover `bytes` in order.
    pub fn carve(name: &'a str, bytes: &'a [u8], bounds: &[(usize, bool)]) -> (r: Option<
        ContentSpans<'a>,
    >)
        ensures
            match r {
                Some(c) => {
                    &&& carve_covers(bytes@.len(), bounds@)
                    &&& c@.name == name@
                    &&& c@.spans == carve_spans(bytes@, bounds@)
                },
                None => !carve_covers(bytes@.len(), bounds@),
            },
    {
        let mut spans: Vec<Span<'a>> = Vec::new();
        let mut at: usize = 0;
        let mut i: usize = 0;
        while i < bounds.len()
            invariant
                i <= bounds@.len(),
                at <= bytes@.len(),
                at == carve_start(bounds@, i as int),
                spans@.len() == i,
                forall|k: int|
                    0 <= k < i ==> carve_start(bounds@, k) <= (#[trigger] bounds@[k]).0
                        <= bytes@.len(),
                forall|k: int|
                    0 <= k < i ==> (#[trigger] spans@[k])@ == carve_spans(bytes@, bounds@)[k],
            decreases bounds.len() - i,
        {
            let end: usize = bounds[i].0;
            if end < at || end > bytes.len() {
                assert(!(carve_start(bounds@, i as int) <= bounds@[i as int].0 <= bytes@.len()));
                return None;
            }
            let part = vstd::slice::slice_subrange(bytes, at, end);
            spans.push(
                if bounds[i].1 {
                    Span::Piece(part)
                } else {
                    Span::Lit(part)
                },
            );
            at = end;
            i = i + 1;
        }
        if at != bytes.len() {
            return None;
        }
        assert(spans_view(spans@) =~= carve_spans(bytes@, bounds@));
        Some(ContentSpans { name, spans })
    }
}

/// Where span `i` of a carve begins.
pub open spec fn carve_start(bounds: Seq<(usize, bool)>, i: int) -> nat {
    if i <= 0 {
        0
    } else {
        bounds[i - 1].0 as nat
    }
}

/// The bounds ascend and end at `len`.
pub open spec fn carve_covers(len: nat, bounds: Seq<(usize, bool)>) -> bool {
    &&& forall|k: int|
        0 <= k < bounds.len() ==> carve_start(bounds, k) <= (#[trigger] bounds[k]).0 <= len
    &&& carve_start(bounds, bounds.len() as int) == len
}

/// The spans a carve yields.
pub open spec fn carve_spans(bytes: Seq<u8>, bounds: Seq<(usize, bool)>) -> Seq<SpanView> {
    Seq::new(
        bounds.len(),
        |i: int|
            {
                let part = bytes.subrange(carve_start(bounds, i) as int, bounds[i].0 as int);
                if bounds[i].1 {
                    SpanView::Piece(part)
                } else {
                    SpanView::Lit(part)
                }
            },
    )
}

/// The bytes of one span.
pub open spec fn span_bytes(s: SpanView) -> Seq<u8> {
    match s {
        SpanView::Lit(b) => b,
        SpanView::Piece(b) => b,
    }
}

/// The bytes of all spans, in order: the value they carve.
pub open spec fn spans_bytes(spans: Seq<SpanView>) -> Seq<u8>
    decreases spans.len(),
{
    if spans.len() == 0 {
        Seq::empty()
    } else {
        spans_bytes(spans.drop_last()) + span_bytes(spans.last())
    }
}

/// Copy spans so that a batch owns them.
pub fn own_spans<'a>(spans: &[Span<'a>]) -> (r: Vec<OwnedSpan>)
    ensures
        owned_spans_view(r@) == spans_view(spans@),
{
    let mut out: Vec<OwnedSpan> = Vec::new();
    let mut i: usize = 0;
    while i < spans.len()
        invariant
            i <= spans@.len(),
            out@.len() == i,
            forall|k: int| 0 <= k < i ==> (#[trigger] out@[k])@ == spans@[k]@,
        decreases spans.len() - i,
    {
        out.push(
            match spans[i] {
                Span::Lit(b) => OwnedSpan::Lit(vstd::slice::slice_to_vec(b)),
                Span::Piece(b) => OwnedSpan::Piece(vstd::slice::slice_to_vec(b)),
            },
        );
        i = i + 1;
    }
    assert(owned_spans_view(out@) =~= spans_view(spans@));
    out
}

impl OwnedContent {
    /// The same spans, borrowed.
    pub fn borrowed<'a>(&'a self) -> (r: ContentSpans<'a>)
        ensures
            r@ == self@,
    {
        let mut spans: Vec<Span<'a>> = Vec::new();
        let mut i: usize = 0;
        while i < self.spans.len()
            invariant
                i <= self.spans@.len(),
                spans@.len() == i,
                forall|k: int| 0 <= k < i ==> (#[trigger] spans@[k])@ == self.spans@[k]@,
            decreases self.spans.len() - i,
        {
            spans.push(
                match &self.spans[i] {
                    OwnedSpan::Lit(b) => Span::Lit(b.as_slice()),
                    OwnedSpan::Piece(b) => Span::Piece(b.as_slice()),
                },
            );
            i = i + 1;
        }
        assert(spans_view(spans@) =~= owned_spans_view(self.spans@));
        ContentSpans { name: self.name.as_str(), spans }
    }
}

// ---------------------------------------------------------------------------------------------
// Sizes.
// ---------------------------------------------------------------------------------------------
/// A size held in 64 bits: the largest value stands for everything beyond it.
pub open spec fn sat(n: nat) -> u64 {
    if n > u64::MAX {
        u64::MAX
    } else {
        n as u64
    }
}

/// A length-prefixed byte string of `n` bytes.
pub open spec fn field_size(n: nat) -> nat {
    varint::varint_len(n) + n
}

/// One attribute.
pub open spec fn attr_size(name: Seq<char>, v: AttrView) -> nat {
    field_size(encode_utf8(name).len()) + 1 + match v {
        AttrView::Str(s) => field_size(encode_utf8(s).len()),
        AttrView::Int(_) | AttrView::Float(_) | AttrView::UInt(_) | AttrView::TimestampNs(_) => 8,
        AttrView::Bool(_) => 1,
        AttrView::Bytes(b) => field_size(b.len()),
        AttrView::Null => 0,
    }
}

/// All attributes.
pub open spec fn attrs_size(attrs: Seq<(Seq<char>, AttrView)>) -> nat
    decreases attrs.len(),
{
    if attrs.len() == 0 {
        0
    } else {
        attrs_size(attrs.drop_last()) + attr_size(attrs.last().0, attrs.last().1)
    }
}

/// A span that becomes a piece.
pub open spec fn is_piece(s: SpanView) -> bool {
    s matches SpanView::Piece(b) && b.len() > 0
}

/// The operation a span becomes. An empty piece is inlined.
pub open spec fn span_op_size(s: SpanView) -> nat {
    if is_piece(s) {
        33 + varint::varint_len(span_bytes(s).len())
    } else {
        1 + field_size(span_bytes(s).len())
    }
}

/// The novel entry a span would need if its piece were new.
pub open spec fn span_novel_size(s: SpanView) -> nat {
    if is_piece(s) {
        32 + field_size(span_bytes(s).len())
    } else {
        0
    }
}

/// Operations and novel entries of spans.
pub open spec fn spans_size(spans: Seq<SpanView>) -> nat
    decreases spans.len(),
{
    if spans.len() == 0 {
        0
    } else {
        spans_size(spans.drop_last()) + span_op_size(spans.last()) + span_novel_size(spans.last())
    }
}

/// Spans that become pieces.
pub open spec fn spans_pieces(spans: Seq<SpanView>) -> nat
    decreases spans.len(),
{
    if spans.len() == 0 {
        0
    } else {
        spans_pieces(spans.drop_last()) + if is_piece(spans.last()) {
            1nat
        } else {
            0
        }
    }
}

/// One content value: name, identity, operations, and novel entries.
pub open spec fn content_size(c: SpansView) -> nat {
    field_size(encode_utf8(c.name).len()) + 32 + varint::varint_len(c.spans.len()) + spans_size(
        c.spans,
    )
}

/// All content values.
pub open spec fn contents_size(contents: Seq<SpansView>) -> nat
    decreases contents.len(),
{
    if contents.len() == 0 {
        0
    } else {
        contents_size(contents.drop_last()) + content_size(contents.last())
    }
}

/// Pieces of all content values.
pub open spec fn contents_pieces(contents: Seq<SpansView>) -> nat
    decreases contents.len(),
{
    if contents.len() == 0 {
        0
    } else {
        contents_pieces(contents.drop_last()) + spans_pieces(contents.last().spans)
    }
}

/// The longest frame a record could need.
pub open spec fn record_size(
    id: Seq<char>,
    contents: Seq<SpansView>,
    attrs: Seq<(Seq<char>, AttrView)>,
) -> nat {
    WAL_FRAME_OVERHEAD as nat + field_size(encode_utf8(id).len()) + varint::varint_len(
        contents.len(),
    ) + contents_size(contents) + varint::varint_len(attrs.len()) + attrs_size(attrs)
        + varint::varint_len(sat(contents_pieces(contents)) as nat)
}

/// The frame of a deletion.
pub open spec fn delete_size(id: Seq<char>) -> nat {
    WAL_FRAME_OVERHEAD as nat + encode_utf8(id).len()
}

/// Bytes in the variable-length form of `value`.
pub fn varint_bytes(value: u64) -> (r: u64)
    ensures
        r == varint::varint_len(value as nat),
        1 <= r <= 10,
{
    let mut rest: u64 = value;
    let mut bytes: u64 = 1;
    proof {
        varint::lemma_varint_len_bound(value as nat);
    }
    while rest >= 128
        invariant
            varint::varint_len(value as nat) <= 10,
            varint::varint_len(value as nat) == bytes - 1 + varint::varint_len(rest as nat),
            bytes >= 1,
        decreases rest,
    {
        rest = rest / 128;
        bytes = bytes + 1;
    }
    bytes
}

/// Add to a saturating size.
pub fn add_size(total: &mut u64, value: u64)
    ensures
        *final(total) == sat((*old(total) + value) as nat),
{
    *total = (*total).saturating_add(value);
}

/// Bytes of a length-prefixed field.
pub fn bytes_field_size(len: usize) -> (r: u64)
    ensures
        r == sat(field_size(len as nat)),
{
    let len: u64 = len as u64;
    varint_bytes(len).saturating_add(len)
}

/// Bytes of one attribute.
pub fn attr_encoded_size(name: &str, value: &AttrValue) -> (r: u64)
    ensures
        r == sat(attr_size(name@, value@)),
{
    let size: u64 = match value {
        AttrValue::Str(s) => bytes_field_size(s.as_str().as_bytes().len()),
        AttrValue::Int(_) => 8,
        AttrValue::Float(_) => 8,
        AttrValue::UInt(_) => 8,
        AttrValue::TimestampNs(_) => 8,
        AttrValue::Bool(_) => 1,
        AttrValue::Bytes(b) => bytes_field_size(b.len()),
        AttrValue::Null => 0,
    };
    bytes_field_size(name.as_bytes().len()).saturating_add(1).saturating_add(size)
}

// ---------------------------------------------------------------------------------------------
// Refusals.
// ---------------------------------------------------------------------------------------------
/// Why a name is refused.
pub open spec fn identifier_fault(
    kind: IdentifierKind,
    value: Seq<char>,
    limits: WriteLimits,
    item: Option<usize>,
) -> Option<RefusalView> {
    if value.len() == 0 {
        Some(RefusalView::EmptyIdentifier { kind, item })
    } else if encode_utf8(value).len() > limits.max_identifier_bytes {
        Some(
            RefusalView::IdentifierTooLong {
                kind,
                item,
                actual: encode_utf8(value).len(),
                allowed: limits.max_identifier_bytes,
            },
        )
    } else {
        None
    }
}

/// The first refused attribute name.
pub open spec fn attrs_fault(
    attrs: Seq<(Seq<char>, AttrView)>,
    limits: WriteLimits,
    item: Option<usize>,
) -> Option<RefusalView>
    decreases attrs.len(),
{
    if attrs.len() == 0 {
        None
    } else {
        match identifier_fault(IdentifierKind::AttributeName, attrs[0].0, limits, item) {
            Some(e) => Some(e),
            None => attrs_fault(attrs.drop_first(), limits, item),
        }
    }
}

/// A piece longer than the format can name.
pub open spec fn span_too_long(s: SpanView) -> bool {
    s matches SpanView::Piece(b) && b.len() > u32::MAX
}

/// Some span is too long.
pub open spec fn any_too_long(spans: Seq<SpanView>) -> bool {
    exists|i: int| 0 <= i < spans.len() && span_too_long(#[trigger] spans[i])
}

/// Why one span is refused: by a read ceiling, or by its length.
pub open spec fn span_fault(s: SpanView, read_limits: ReadLimits) -> Option<WriteFault> {
    if is_piece(s) {
        let n = span_bytes(s).len() as u64;
        match read_limits::frame_refusal(read_limits, n, n) {
            Some(e) => Some(WriteFault::Read(e)),
            None => if span_too_long(s) {
                Some(WriteFault::PieceTooLong)
            } else {
                None
            },
        }
    } else {
        None
    }
}

/// The first refused span.
pub open spec fn spans_fault(spans: Seq<SpanView>, read_limits: ReadLimits) -> Option<WriteFault>
    decreases spans.len(),
{
    if spans.len() == 0 {
        None
    } else {
        match spans_fault(spans.drop_last(), read_limits) {
            Some(e) => Some(e),
            None => span_fault(spans.last(), read_limits),
        }
    }
}

/// Some earlier content value has the name of value `k`.
pub open spec fn input_repeats(contents: Seq<SpansView>, k: int) -> bool {
    exists|j: int| 0 <= j < k && (#[trigger] contents[j]).name == contents[k].name
}

/// The first refused content value. `lengths_first` says whether the lengths of all spans of a
/// value are judged before any of them meets a read ceiling.
pub open spec fn inputs_fault(
    contents: Seq<SpansView>,
    limits: WriteLimits,
    read_limits: ReadLimits,
    item: Option<usize>,
    lengths_first: bool,
) -> Option<WriteFault>
    decreases contents.len(),
{
    if contents.len() == 0 {
        None
    } else {
        let c = contents.last();
        match inputs_fault(contents.drop_last(), limits, read_limits, item, lengths_first) {
            Some(e) => Some(e),
            None => match identifier_fault(IdentifierKind::ContentName, c.name, limits, item) {
                Some(e) => Some(WriteFault::Admission(e)),
                None => if input_repeats(contents, contents.len() - 1) {
                    Some(
                        WriteFault::Admission(
                            RefusalView::DuplicateContentName { item, name: c.name },
                        ),
                    )
                } else if lengths_first && any_too_long(c.spans) {
                    Some(WriteFault::PieceTooLong)
                } else {
                    spans_fault(c.spans, read_limits)
                },
            },
        }
    }
}

/// Why a charge is refused.
pub open spec fn charge_fault(
    size: u64,
    limits: WriteLimits,
    read_limits: ReadLimits,
    item: Option<usize>,
) -> Option<WriteFault> {
    if size > limits.max_record_bytes {
        Some(
            WriteFault::Admission(
                RefusalView::RecordTooLarge {
                    item,
                    actual: size,
                    allowed: limits.max_record_bytes,
                },
            ),
        )
    } else {
        match read_limits::frame_refusal(read_limits, size, size) {
            Some(e) => Some(WriteFault::Read(e)),
            None => None,
        }
    }
}

/// Why a record is refused.
pub open spec fn record_fault(
    id: Seq<char>,
    contents: Seq<SpansView>,
    attrs: Seq<(Seq<char>, AttrView)>,
    limits: WriteLimits,
    read_limits: ReadLimits,
    item: Option<usize>,
    lengths_first: bool,
) -> Option<WriteFault> {
    match identifier_fault(IdentifierKind::RecordId, id, limits, item) {
        Some(e) => Some(WriteFault::Admission(e)),
        None => match attrs_fault(attrs, limits, item) {
            Some(e) => Some(WriteFault::Admission(e)),
            None => match inputs_fault(contents, limits, read_limits, item, lengths_first) {
                Some(e) => Some(e),
                None => charge_fault(
                    sat(record_size(id, contents, attrs)),
                    limits,
                    read_limits,
                    item,
                ),
            },
        },
    }
}

/// Why a deletion is refused.
pub open spec fn delete_fault(
    id: Seq<char>,
    limits: WriteLimits,
    read_limits: ReadLimits,
    item: Option<usize>,
) -> Option<WriteFault> {
    match identifier_fault(IdentifierKind::RecordId, id, limits, item) {
        Some(e) => Some(WriteFault::Admission(e)),
        None => charge_fault(sat(delete_size(id)), limits, read_limits, item),
    }
}

/// Judge one name.
pub fn validate_identifier(
    kind: IdentifierKind,
    value: &str,
    limits: &WriteLimits,
    item: Option<usize>,
) -> (r: Result<(), WriteAdmissionError>)
    ensures
        match r {
            Ok(()) => identifier_fault(kind, value@, *limits, item) is None,
            Err(e) => identifier_fault(kind, value@, *limits, item) == Some(e@),
        },
{
    if value.is_empty() {
        return Err(WriteAdmissionError::EmptyIdentifier { kind, item });
    }
    let actual: usize = value.as_bytes().len();
    if actual > limits.max_identifier_bytes {
        return Err(
            WriteAdmissionError::IdentifierTooLong {
                kind,
                item,
                actual,
                allowed: limits.max_identifier_bytes,
            },
        );
    }
    Ok(())
}

/// Judge attribute names in order.
pub fn validate_attr_names(
    attrs: &[(String, AttrValue)],
    limits: &WriteLimits,
    item: Option<usize>,
) -> (r: Result<(), WriteAdmissionError>)
    ensures
        match r {
            Ok(()) => attrs_fault(types::attrs_view(attrs@), *limits, item) is None,
            Err(e) => attrs_fault(types::attrs_view(attrs@), *limits, item) == Some(e@),
        },
{
    let ghost all = types::attrs_view(attrs@);
    let mut i: usize = 0;
    assert(all.skip(0) =~= all);
    while i < attrs.len()
        invariant
            i <= attrs@.len(),
            all == types::attrs_view(attrs@),
            attrs_fault(all, *limits, item) == attrs_fault(all.skip(i as int), *limits, item),
        decreases attrs.len() - i,
    {
        assert(all.skip(i as int)[0] == (attrs@[i as int].0@, attrs@[i as int].1@));
        assert(all.skip(i as int).drop_first() =~= all.skip(i + 1));
        match validate_identifier(
            IdentifierKind::AttributeName,
            attrs[i].0.as_str(),
            limits,
            item,
        ) {
            Ok(()) => {},
            Err(e) => {
                return Err(e);
            },
        }
        i = i + 1;
    }
    Ok(())
}

/// Judge the lengths of spans.
pub fn validate_spans<'a>(spans: &[Span<'a>]) -> (r: Result<(), WriteError>)
    ensures
        match r {
            Ok(()) => !any_too_long(spans_view(spans@)),
            Err(e) => any_too_long(spans_view(spans@)) && e@ == WriteFault::PieceTooLong,
        },
{
    let ghost all = spans_view(spans@);
    let mut i: usize = 0;
    while i < spans.len()
        invariant
            i <= spans@.len(),
            all == spans_view(spans@),
            forall|k: int| 0 <= k < i ==> !span_too_long(#[trigger] all[k]),
        decreases spans.len() - i,
    {
        if let Span::Piece(b) = spans[i] {
            if b.len() as u64 > u32::MAX as u64 {
                assert(span_too_long(all[i as int]));
                return Err(WriteError::PieceTooLong);
            }
        }
        i = i + 1;
    }
    Ok(())
}

proof fn lemma_spans_fault_prefix(spans: Seq<SpanView>, k: int, read_limits: ReadLimits)
    requires
        0 <= k <= spans.len(),
        spans_fault(spans.take(k), read_limits) is Some,
    ensures
        spans_fault(spans, read_limits) == spans_fault(spans.take(k), read_limits),
    decreases spans.len(),
{
    if k < spans.len() {
        assert(spans.drop_last().take(k) =~= spans.take(k));
        lemma_spans_fault_prefix(spans.drop_last(), k, read_limits);
    } else {
        assert(spans.take(k) =~= spans);
    }
}

proof fn lemma_inputs_fault_prefix(
    contents: Seq<SpansView>,
    k: int,
    limits: WriteLimits,
    read_limits: ReadLimits,
    item: Option<usize>,
    lengths_first: bool,
)
    requires
        0 <= k <= contents.len(),
        inputs_fault(contents.take(k), limits, read_limits, item, lengths_first) is Some,
    ensures
        inputs_fault(contents, limits, read_limits, item, lengths_first) == inputs_fault(
            contents.take(k),
            limits,
            read_limits,
            item,
            lengths_first,
        ),
    decreases contents.len(),
{
    if k < contents.len() {
        assert(contents.drop_last().take(k) =~= contents.take(k));
        lemma_inputs_fault_prefix(
            contents.drop_last(),
            k,
            limits,
            read_limits,
            item,
            lengths_first,
        );
    } else {
        assert(contents.take(k) =~= contents);
    }
}

/// Charge the spans of one content value, or refuse the first that cannot be stored.
fn charge_spans<'a>(
    spans: &[Span<'a>],
    read_limits: &ReadLimits,
    size: &mut u64,
    pieces: &mut u64,
) -> (r: Result<(), WriteError>)
    ensures
        match r {
            Ok(()) => {
                &&& spans_fault(spans_view(spans@), *read_limits) is None
                &&& *final(size) == sat((*old(size) + spans_size(spans_view(spans@))) as nat)
                &&& *final(pieces) == sat((*old(pieces) + spans_pieces(spans_view(spans@))) as nat)
            },
            Err(e) => spans_fault(spans_view(spans@), *read_limits) == Some(e@),
        },
{
    let ghost all = spans_view(spans@);
    let mut i: usize = 0;
    assert(all.take(0) =~= Seq::<SpanView>::empty());
    while i < spans.len()
        invariant
            i <= spans@.len(),
            all == spans_view(spans@),
            spans_fault(all.take(i as int), *read_limits) is None,
            *size == sat((*old(size) + spans_size(all.take(i as int))) as nat),
            *pieces == sat((*old(pieces) + spans_pieces(all.take(i as int))) as nat),
        decreases spans.len() - i,
    {
        let ghost next = all.take(i + 1);
        assert(next.drop_last() =~= all.take(i as int));
        assert(next.last() == spans@[i as int]@);
        match spans[i] {
            Span::Lit(b) => {
                add_size(size, 1u64.saturating_add(bytes_field_size(b.len())));
            },
            Span::Piece(b) => {
                if b.len() == 0 {
                    add_size(size, 1u64.saturating_add(bytes_field_size(0)));
                } else {
                    let n: u64 = b.len() as u64;
                    match read_limits.admit_frame(n, n) {
                        Ok(()) => {},
                        Err(e) => {
                            proof {
                                lemma_spans_fault_prefix(all, i + 1, *read_limits);
                            }
                            return Err(WriteError::Read(e));
                        },
                    }
                    if n > u32::MAX as u64 {
                        proof {
                            lemma_spans_fault_prefix(all, i + 1, *read_limits);
                        }
                        return Err(WriteError::PieceTooLong);
                    }
                    *pieces = (*pieces).saturating_add(1);
                    add_size(size, 33u64.saturating_add(varint_bytes(n)));
                    add_size(size, 32u64.saturating_add(bytes_field_size(b.len())));
                }
            },
        }
        i = i + 1;
    }
    assert(all.take(i as int) =~= all);
    Ok(())
}

/// Charge one record.
fn charge_record<'a>(
    id: &str,
    contents: &[ContentSpans<'a>],
    attrs: &[(String, AttrValue)],
    limits: &WriteLimits,
    read_limits: &ReadLimits,
    item: Option<usize>,
    lengths_first: bool,
) -> (r: Result<u64, WriteError>)
    ensures
        match r {
            Ok(size) => {
                &&& record_fault(
                    id@,
                    inputs_view(contents@),
                    types::attrs_view(attrs@),
                    *limits,
                    *read_limits,
                    item,
                    lengths_first,
                ) is None
                &&& size == sat(
                    record_size(id@, inputs_view(contents@), types::attrs_view(attrs@)),
                )
            },
            Err(e) => record_fault(
                id@,
                inputs_view(contents@),
                types::attrs_view(attrs@),
                *limits,
                *read_limits,
                item,
                lengths_first,
            ) == Some(e@),
        },
{
    match validate_identifier(IdentifierKind::RecordId, id, limits, item) {
        Ok(()) => {},
        Err(e) => {
            return Err(WriteError::Admission(e));
        },
    }
    match validate_attr_names(attrs, limits, item) {
        Ok(()) => {},
        Err(e) => {
            return Err(WriteError::Admission(e));
        },
    }
    let ghost all = inputs_view(contents@);
    let ghost av = types::attrs_view(attrs@);
    let mut size: u64 = WAL_FRAME_OVERHEAD;
    add_size(&mut size, bytes_field_size(id.as_bytes().len()));
    add_size(&mut size, varint_bytes(contents.len() as u64));
    let ghost head = WAL_FRAME_OVERHEAD as nat + field_size(encode_utf8(id@).len())
        + varint::varint_len(all.len());
    assert(size == sat(head));
    let mut pieces: u64 = 0;
    let mut i: usize = 0;
    assert(all.take(0) =~= Seq::<SpansView>::empty());
    while i < contents.len()
        invariant
            i <= contents@.len(),
            all == inputs_view(contents@),
            av == types::attrs_view(attrs@),
            identifier_fault(IdentifierKind::RecordId, id@, *limits, item) is None,
            attrs_fault(av, *limits, item) is None,
            inputs_fault(all.take(i as int), *limits, *read_limits, item, lengths_first) is None,
            size == sat(head + contents_size(all.take(i as int))),
            pieces == sat(contents_pieces(all.take(i as int))),
        decreases contents.len() - i,
    {
        let ghost next = all.take(i + 1);
        let ghost cv = contents@[i as int]@;
        assert(next.drop_last() =~= all.take(i as int));
        assert(next.last() == cv);
        let content = &contents[i];
        match validate_identifier(IdentifierKind::ContentName, content.name, limits, item) {
            Ok(()) => {},
            Err(e) => {
                proof {
                    lemma_inputs_fault_prefix(
                        all,
                        i + 1,
                        *limits,
                        *read_limits,
                        item,
                        lengths_first,
                    );
                }
                return Err(WriteError::Admission(e));
            },
        }
        let mut j: usize = 0;
        while j < i
            invariant
                j <= i < contents@.len(),
                all == inputs_view(contents@),
                av == types::attrs_view(attrs@),
                next == all.take(i + 1),
                next.drop_last() == all.take(i as int),
                next.last() == cv,
                cv == contents@[i as int]@,
                content.name@ == cv.name,
                identifier_fault(IdentifierKind::RecordId, id@, *limits, item) is None,
                attrs_fault(av, *limits, item) is None,
                inputs_fault(
                    all.take(i as int),
                    *limits,
                    *read_limits,
                    item,
                    lengths_first,
                ) is None,
                identifier_fault(IdentifierKind::ContentName, cv.name, *limits, item) is None,
                forall|k: int| 0 <= k < j ==> (#[trigger] next[k]).name != next[i as int].name,
            decreases i - j,
        {
            if bytes::str_eq(contents[j].name, content.name) {
                proof {
                    assert(next[j as int].name == next[i as int].name);
                    assert(input_repeats(next, next.len() - 1));
                    lemma_inputs_fault_prefix(
                        all,
                        i + 1,
                        *limits,
                        *read_limits,
                        item,
                        lengths_first,
                    );
                }
                return Err(
                    WriteError::Admission(
                        WriteAdmissionError::DuplicateContentName {
                            item,
                            name: content.name.to_owned(),
                        },
                    ),
                );
            }
            j = j + 1;
        }
        assert(!input_repeats(next, next.len() - 1));
        if lengths_first {
            match validate_spans(content.spans.as_slice()) {
                Ok(()) => {},
                Err(e) => {
                    proof {
                        lemma_inputs_fault_prefix(
                            all,
                            i + 1,
                            *limits,
                            *read_limits,
                            item,
                            lengths_first,
                        );
                    }
                    return Err(e);
                },
            }
        }
        add_size(&mut size, bytes_field_size(content.name.as_bytes().len()));
        add_size(&mut size, 32);
        add_size(&mut size, varint_bytes(content.spans.len() as u64));
        match charge_spans(content.spans.as_slice(), read_limits, &mut size, &mut pieces) {
            Ok(()) => {},
            Err(e) => {
                proof {
                    lemma_inputs_fault_prefix(
                        all,
                        i + 1,
                        *limits,
                        *read_limits,
                        item,
                        lengths_first,
                    );
                }
                return Err(e);
            },
        }
        i = i + 1;
    }
    assert(all.take(i as int) =~= all);
    add_size(&mut size, varint_bytes(attrs.len() as u64));
    let ghost mid = head + contents_size(all) + varint::varint_len(av.len());
    assert(size == sat(mid));
    let mut k: usize = 0;
    assert(av.take(0) =~= Seq::<(Seq<char>, AttrView)>::empty());
    while k < attrs.len()
        invariant
            k <= attrs@.len(),
            av == types::attrs_view(attrs@),
            size == sat(mid + attrs_size(av.take(k as int))),
        decreases attrs.len() - k,
    {
        proof {
            let next = av.take(k + 1);
            assert(next.drop_last() =~= av.take(k as int));
            assert(next.last() == (attrs@[k as int].0@, attrs@[k as int].1@));
        }
        add_size(&mut size, attr_encoded_size(attrs[k].0.as_str(), &attrs[k].1));
        k = k + 1;
    }
    assert(av.take(k as int) =~= av);
    add_size(&mut size, varint_bytes(pieces));
    if size > limits.max_record_bytes {
        return Err(
            WriteError::Admission(
                WriteAdmissionError::RecordTooLarge {
                    item,
                    actual: size,
                    allowed: limits.max_record_bytes,
                },
            ),
        );
    }
    match read_limits.admit_frame(size, size) {
        Ok(()) => Ok(size),
        Err(e) => Err(WriteError::Read(e)),
    }
}

/// Charge a record handed to the store directly.
pub fn input_record_admission_bytes<'a>(
    id: &str,
    contents: &[ContentSpans<'a>],
    attrs: &[(String, AttrValue)],
    limits: &WriteLimits,
    read_limits: &ReadLimits,
    item: Option<usize>,
) -> (r: Result<u64, WriteError>)
    ensures
        match r {
            Ok(size) => {
                &&& record_fault(
                    id@,
                    inputs_view(contents@),
                    types::attrs_view(attrs@),
                    *limits,
                    *read_limits,
                    item,
                    true,
                ) is None
                &&& size == sat(
                    record_size(id@, inputs_view(contents@), types::attrs_view(attrs@)),
                )
            },
            Err(e) => record_fault(
                id@,
                inputs_view(contents@),
                types::attrs_view(attrs@),
                *limits,
                *read_limits,
                item,
                true,
            ) == Some(e@),
        },
{
    charge_record(id, contents, attrs, limits, read_limits, item, true)
}

/// Charge a record a batch owns.
pub fn owned_record_admission_bytes(
    id: &str,
    contents: &[OwnedContent],
    attrs: &[(String, AttrValue)],
    limits: &WriteLimits,
    read_limits: &ReadLimits,
    item: Option<usize>,
) -> (r: Result<u64, WriteError>)
    ensures
        match r {
            Ok(size) => {
                &&& record_fault(
                    id@,
                    owned_view(contents@),
                    types::attrs_view(attrs@),
                    *limits,
                    *read_limits,
                    item,
                    false,
                ) is None
                &&& size == sat(
                    record_size(id@, owned_view(contents@), types::attrs_view(attrs@)),
                )
            },
            Err(e) => record_fault(
                id@,
                owned_view(contents@),
                types::attrs_view(attrs@),
                *limits,
                *read_limits,
                item,
                false,
            ) == Some(e@),
        },
{
    let mut lent: Vec<ContentSpans<'_>> = Vec::new();
    let mut i: usize = 0;
    while i < contents.len()
        invariant
            i <= contents@.len(),
            lent@.len() == i,
            forall|k: int| 0 <= k < i ==> (#[trigger] lent@[k])@ == contents@[k]@,
        decreases contents.len() - i,
    {
        lent.push(contents[i].borrowed());
        i = i + 1;
    }
    assert(inputs_view(lent@) =~= owned_view(contents@));
    charge_record(id, lent.as_slice(), attrs, limits, read_limits, item, false)
}

/// Charge a deletion.
pub fn delete_admission_bytes(
    id: &str,
    limits: &WriteLimits,
    read_limits: &ReadLimits,
    item: Option<usize>,
) -> (r: Result<u64, WriteError>)
    ensures
        match r {
            Ok(size) => delete_fault(id@, *limits, *read_limits, item) is None && size == sat(
                delete_size(id@),
            ),
            Err(e) => delete_fault(id@, *limits, *read_limits, item) == Some(e@),
        },
{
    match validate_identifier(IdentifierKind::RecordId, id, limits, item) {
        Ok(()) => {},
        Err(e) => {
            return Err(WriteError::Admission(e));
        },
    }
    let size: u64 = WAL_FRAME_OVERHEAD.saturating_add(id.as_bytes().len() as u64);
    if size > limits.max_record_bytes {
        return Err(
            WriteError::Admission(
                WriteAdmissionError::RecordTooLarge {
                    item,
                    actual: size,
                    allowed: limits.max_record_bytes,
                },
            ),
        );
    }
    match read_limits.admit_frame(size, size) {
        Ok(()) => Ok(size),
        Err(e) => Err(WriteError::Read(e)),
    }
}

} // verus!
