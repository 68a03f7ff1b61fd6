//! Refusals in words.

use crate::store::admission::{IdentifierKind, RefusalView, WriteAdmissionError};
use crate::store::compact::{CompactionError, CompactionFault};
use crate::text;
use vstd::prelude::*;
use vstd::string::*;

verus! {

/// A number in words.
pub open spec fn number(n: nat) -> Seq<char> {
    text::chars(text::decimal(n))
}

/// A text in quotes with its special characters escaped, as the `Debug` form of `str` writes it.
pub uninterp spec fn quoted(text: Seq<char>) -> Seq<char>;

/// `<str as Debug>::fmt`, through `format!`: the quoted form of a text, a function of the text
/// alone. Which characters it escapes, and how, is not stated.
#[verifier::external_body]
fn debug_text(text: &str) -> (r: String)
    ensures
        r@ == quoted(text@),
{
    format!("{text:?}")
}

/// Where in a batch a refusal arose.
pub open spec fn place(item: Option<usize>) -> Seq<char> {
    match item {
        Some(i) => " in batch item "@ + number(i as nat),
        None => Seq::empty(),
    }
}

/// What a name is called.
pub open spec fn kind_name(kind: IdentifierKind) -> Seq<char> {
    match kind {
        IdentifierKind::RecordId => "record id"@,
        IdentifierKind::AttributeName => "attribute name"@,
        IdentifierKind::ContentName => "content name"@,
    }
}

/// A write refusal in words.
pub open spec fn refusal_text(e: RefusalView) -> Seq<char> {
    match e {
        RefusalView::InvalidLimits(reason) => "invalid write limits: "@ + reason,
        RefusalView::EmptyIdentifier { kind, item } => kind_name(kind) + place(item)
            + " must not be empty"@,
        RefusalView::IdentifierTooLong { kind, item, actual, allowed } => kind_name(kind) + place(
            item,
        ) + " is "@ + number(actual) + " UTF-8 bytes, exceeding the configured limit of "@
            + number(allowed as nat),
        RefusalView::DuplicateContentName { item, name } => "duplicate content name "@ + quoted(
            name,
        ) + place(item),
        RefusalView::RecordTooLarge { item, actual, allowed } => "record"@ + place(item)
            + " has a worst-case WAL frame of "@ + number(actual as nat)
            + " bytes, exceeding the configured limit of "@ + number(allowed as nat),
        RefusalView::BatchTooLarge { actual, allowed } =>
            "atomic batch has a worst-case WAL representation of "@ + number(actual as nat)
            + " bytes, exceeding the configured limit of "@ + number(allowed as nat),
        RefusalView::TooManyBatchRecords { actual, allowed } => "atomic batch has "@ + number(
            actual,
        ) + " records, exceeding the configured limit of "@ + number(allowed as nat),
    }
}

/// A compaction refusal in words.
pub open spec fn compaction_text(e: CompactionFault) -> Seq<char> {
    match e {
        CompactionFault::InvalidBudget(reason) => "invalid compaction budget: "@ + reason,
        CompactionFault::BudgetTooSmall { start_part, input_rows, input_bytes, budget } =>
            "no adjacent part pair fits the compaction budget; the smallest-byte pair starts at part "@
            + number(start_part as nat) + " and needs "@ + number(input_rows as nat) + " rows / "@
            + number(input_bytes as nat) + " bytes, limits are "@ + number(
            budget.max_input_rows as nat,
        ) + " rows / "@ + number(budget.max_input_bytes as nat) + " bytes"@,
    }
}

fn put_number(out: &mut String, n: u64)
    ensures
        final(out)@ == old(out)@ + number(n as nat),
{
    let digits = text::decimal_bytes(n);
    proof {
        text::lemma_decimal_digits(n as nat);
    }
    let words = text::ascii_text(digits.as_slice());
    out.append(words.as_str());
}

fn put_place(out: &mut String, item: Option<usize>)
    ensures
        final(out)@ == old(out)@ + place(item),
{
    let ghost before = out@;
    if let Some(i) = item {
        out.append(" in batch item ");
        put_number(out, i as u64);
        assert(out@ =~= before + (" in batch item "@ + number(i as nat)));
    } else {
        assert(out@ =~= before + Seq::<char>::empty());
    }
}

impl IdentifierKind {
    /// What a name of this kind is called.
    pub fn name(&self) -> (r: &'static str)
        ensures
            r@ == kind_name(*self),
    {
        match self {
            IdentifierKind::RecordId => "record id",
            IdentifierKind::AttributeName => "attribute name",
            IdentifierKind::ContentName => "content name",
        }
    }
}

impl WriteAdmissionError {
    /// This refusal in words.
    pub fn message(&self) -> (r: String)
        ensures
            r@ == refusal_text(self@),
    {
        match self {
            WriteAdmissionError::InvalidLimits(reason) => {
                let mut out: String = "invalid write limits: ".to_owned();
                out.append(reason);
                out
            },
            WriteAdmissionError::EmptyIdentifier { kind, item } => {
                let mut out: String = kind.name().to_owned();
                put_place(&mut out, *item);
                out.append(" must not be empty");
                out
            },
            WriteAdmissionError::IdentifierTooLong { kind, item, actual, allowed } => {
                let mut out: String = kind.name().to_owned();
                put_place(&mut out, *item);
                out.append(" is ");
                put_number(&mut out, *actual as u64);
                out.append(" UTF-8 bytes, exceeding the configured limit of ");
                put_number(&mut out, *allowed as u64);
                out
            },
            WriteAdmissionError::DuplicateContentName { item, name } => {
                let mut out: String = "duplicate content name ".to_owned();
                let shown = debug_text(name.as_str());
                out.append(shown.as_str());
                put_place(&mut out, *item);
                out
            },
            WriteAdmissionError::RecordTooLarge { item, actual, allowed } => {
                let mut out: String = "record".to_owned();
                put_place(&mut out, *item);
                out.append(" has a worst-case WAL frame of ");
                put_number(&mut out, *actual);
                out.append(" bytes, exceeding the configured limit of ");
                put_number(&mut out, *allowed);
                out
            },
            WriteAdmissionError::BatchTooLarge { actual, allowed } => {
                let mut out: String =
                    "atomic batch has a worst-case WAL representation of ".to_owned();
                put_number(&mut out, *actual);
                out.append(" bytes, exceeding the configured limit of ");
                put_number(&mut out, *allowed);
                out
            },
            WriteAdmissionError::TooManyBatchRecords { actual, allowed } => {
                let mut out: String = "atomic batch has ".to_owned();
                put_number(&mut out, *actual as u64);
                out.append(" records, exceeding the configured limit of ");
                put_number(&mut out, *allowed as u64);
                out
            },
        }
    }
}

impl CompactionError {
    /// This refusal in words.
    pub fn message(&self) -> (r: String)
        ensures
            r@ == compaction_text(self@),
    {
        match self {
            CompactionError::InvalidBudget(reason) => {
                let mut out: String = "invalid compaction budget: ".to_owned();
                out.append(reason.as_str());
                out
            },
            CompactionError::BudgetTooSmall { start_part, input_rows, input_bytes, budget } => {
                let mut out: String =
                    "no adjacent part pair fits the compaction budget; the smallest-byte pair starts at part ".to_owned();
                put_number(&mut out, *start_part as u64);
                out.append(" and needs ");
                put_number(&mut out, *input_rows);
                out.append(" rows / ");
                put_number(&mut out, *input_bytes);
                out.append(" bytes, limits are ");
                put_number(&mut out, budget.max_input_rows);
                out.append(" rows / ");
                put_number(&mut out, budget.max_input_bytes);
                out.append(" bytes");
                out
            },
        }
    }
}

} // verus!
