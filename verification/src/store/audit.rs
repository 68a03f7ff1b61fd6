//! Audits: every dictionary entry, every live content value, of one read view.

use crate::bytes;
use crate::fold;
use crate::fold::{Fold, FoldError, FoldView, Loc};
use crate::part;
use crate::part::{Part, PartView, ReadError};
use crate::store::read;
use crate::types::{ContentView, Record};
use vstd::prelude::*;

verus! {

// ---------------------------------------------------------------------------------------------
// Dictionaries.
// ---------------------------------------------------------------------------------------------
/// What is wrong with one dictionary entry. What was given up is historical residue, not a fault.
pub open spec fn entry_fault(f: FoldView, e: (Seq<u8>, Loc)) -> Option<FoldError> {
    if fold::in_ranges(f.punched, e.1.block_id) {
        None
    } else {
        match fold::fold_read(f, e.1, e.0) {
            Ok(_) => None,
            Err(error) => Some(error),
        }
    }
}

/// What is wrong first with the first `n` entries of a dictionary.
pub open spec fn dictionary_fault(f: FoldView, pieces: Seq<(Seq<u8>, Loc)>, n: nat) -> Option<
    FoldError,
>
    decreases n,
{
    if n == 0 {
        None
    } else {
        match dictionary_fault(f, pieces, (n - 1) as nat) {
            Some(e) => Some(e),
            None => entry_fault(f, pieces[n - 1]),
        }
    }
}

/// How many of the first `n` entries are not given up.
pub open spec fn operational(f: FoldView, pieces: Seq<(Seq<u8>, Loc)>, n: nat) -> nat
    decreases n,
{
    if n == 0 {
        0
    } else {
        operational(f, pieces, (n - 1) as nat) + if fold::in_ranges(
            f.punched,
            pieces[n - 1].1.block_id,
        ) {
            0nat
        } else {
            1
        }
    }
}

proof fn lemma_dictionary_prefix(f: FoldView, pieces: Seq<(Seq<u8>, Loc)>, k: nat, n: nat)
    requires
        k <= n,
        dictionary_fault(f, pieces, k) is Some,
    ensures
        dictionary_fault(f, pieces, n) == dictionary_fault(f, pieces, k),
    decreases n,
{
    if k < n {
        lemma_dictionary_prefix(f, pieces, k, (n - 1) as nat);
    }
}

/// Where a dictionary has no fault, each entry is given up or reads as its piece.
pub proof fn lemma_dictionary_each(f: FoldView, pieces: Seq<(Seq<u8>, Loc)>, n: nat, i: int)
    requires
        dictionary_fault(f, pieces, n) is None,
        0 <= i < n,
    ensures
        entry_fault(f, pieces[i]) is None,
    decreases n,
{
    if i < n - 1 {
        lemma_dictionary_each(f, pieces, (n - 1) as nat, i);
    }
}

/// Check every entry of a part's dictionary, and count those not given up.
pub fn verify_piece_dictionary(p: &Part, f: &Fold) -> (r: Result<usize, FoldError>)
    ensures
        match r {
            Ok(n) => dictionary_fault(f@, p@.pieces, p@.pieces.len()) is None && n == operational(
                f@,
                p@.pieces,
                p@.pieces.len(),
            ),
            Err(e) => dictionary_fault(f@, p@.pieces, p@.pieces.len()) == Some(e),
        },
{
    let ghost pieces = p@.pieces;
    let mut n: usize = 0;
    let mut i: usize = 0;
    while i < p.pieces.len()
        invariant
            pieces == p@.pieces,
            i <= p.pieces@.len(),
            n <= i,
            n == operational(f@, pieces, i as nat),
            dictionary_fault(f@, pieces, i as nat) is None,
        decreases p.pieces.len() - i,
    {
        assert(pieces[i as int] == (p.pieces@[i as int].0@, p.pieces@[i as int].1));
        let loc = p.pieces[i].1;
        if !f.is_punched(loc.block_id) {
            match f.read_verified(loc, &p.pieces[i].0) {
                Ok(_) => {
                    n = n + 1;
                },
                Err(e) => {
                    proof {
                        lemma_dictionary_prefix(f@, pieces, (i + 1) as nat, pieces.len());
                    }
                    return Err(e);
                },
            }
        }
        i = i + 1;
    }
    Ok(n)
}

// ---------------------------------------------------------------------------------------------
// Values.
// ---------------------------------------------------------------------------------------------
/// Why a live content value does not verify.
#[derive(Clone, Copy, Debug, PartialEq, Eq, Structural)]
pub struct ValueFault {
    pub part: usize,
    pub row: usize,
    pub content: usize,
    pub error: ReadError,
}

/// Whether a fault only says that content was given up.
pub open spec fn is_erasure(e: ReadError) -> bool {
    e matches ReadError::Fold { error } && error is Erased
}

/// What is wrong with one value. A retained view may name content given up since.
pub open spec fn one_fault(p: PartView, f: FoldView, c: ContentView, retained: bool) -> Option<
    ReadError,
> {
    match part::verified_value(p.pieces, f, c) {
        Ok(_) => None,
        Err(e) => if retained && is_erasure(e) {
            None
        } else {
            Some(e)
        },
    }
}

/// What is wrong first with the first `n` values of a record.
pub open spec fn record_fault(
    parts: Seq<PartView>,
    f: FoldView,
    p: int,
    row: int,
    retained: bool,
    n: nat,
) -> Option<ValueFault>
    decreases n,
{
    if n == 0 {
        None
    } else {
        match record_fault(parts, f, p, row, retained, (n - 1) as nat) {
            Some(e) => Some(e),
            None => match one_fault(
                parts[p],
                f,
                parts[p].rows[row].record->0.contents[n - 1],
                retained,
            ) {
                Some(error) => Some(
                    ValueFault {
                        part: p as usize,
                        row: row as usize,
                        content: (n - 1) as usize,
                        error,
                    },
                ),
                None => None,
            },
        }
    }
}

/// What is wrong with the values of one row; a row that is not live has none.
pub open spec fn row_value_fault(
    parts: Seq<PartView>,
    f: FoldView,
    p: int,
    row: int,
    retained: bool,
) -> Option<ValueFault> {
    if read::verdict(parts, p, row) == read::Verdict::Live {
        record_fault(parts, f, p, row, retained, parts[p].rows[row].record->0.contents.len())
    } else {
        None
    }
}

/// What is wrong first with the values of a part's first `n` rows.
pub open spec fn part_value_fault(
    parts: Seq<PartView>,
    f: FoldView,
    p: int,
    retained: bool,
    n: nat,
) -> Option<ValueFault>
    decreases n,
{
    if n == 0 {
        None
    } else {
        match part_value_fault(parts, f, p, retained, (n - 1) as nat) {
            Some(e) => Some(e),
            None => row_value_fault(parts, f, p, n - 1, retained),
        }
    }
}

/// What is wrong first with the values of the first `n` parts.
pub open spec fn values_fault(parts: Seq<PartView>, f: FoldView, retained: bool, n: nat) -> Option<
    ValueFault,
>
    decreases n,
{
    if n == 0 {
        None
    } else {
        match values_fault(parts, f, retained, (n - 1) as nat) {
            Some(e) => Some(e),
            None => part_value_fault(parts, f, n - 1, retained, parts[n - 1].rows.len()),
        }
    }
}

/// What an audit of values counted.
pub struct Tally {
    pub records: nat,
    pub values: nat,
    pub bytes: nat,
}

/// How many bytes the first `n` values of a record have.
pub open spec fn record_bytes(p: PartView, f: FoldView, contents: Seq<ContentView>, n: nat) -> nat
    decreases n,
{
    if n == 0 {
        0
    } else {
        record_bytes(p, f, contents, (n - 1) as nat) + match part::verified_value(
            p.pieces,
            f,
            contents[n - 1],
        ) {
            Ok(b) => b.len(),
            Err(_) => 0,
        }
    }
}

/// A tally with one more row.
pub open spec fn tally_row(parts: Seq<PartView>, f: FoldView, p: int, row: int, t: Tally) -> Tally {
    if read::verdict(parts, p, row) == read::Verdict::Live {
        let contents = parts[p].rows[row].record->0.contents;
        Tally {
            records: t.records + 1,
            values: t.values + contents.len(),
            bytes: t.bytes + record_bytes(parts[p], f, contents, contents.len()),
        }
    } else {
        t
    }
}

/// A tally with the first `n` rows of a part.
pub open spec fn tally_part(parts: Seq<PartView>, f: FoldView, p: int, n: nat, t: Tally) -> Tally
    decreases n,
{
    if n == 0 {
        t
    } else {
        tally_row(parts, f, p, n - 1, tally_part(parts, f, p, (n - 1) as nat, t))
    }
}

/// The live records of the first `n` parts, their values and those values' bytes.
pub open spec fn tally(parts: Seq<PartView>, f: FoldView, n: nat) -> Tally
    decreases n,
{
    if n == 0 {
        Tally { records: 0, values: 0, bytes: 0 }
    } else {
        tally_part(
            parts,
            f,
            n - 1,
            parts[n - 1].rows.len(),
            tally(parts, f, (n - 1) as nat),
        )
    }
}

/// Counts of an audit that found no fault, each held at the largest number that fits.
#[derive(Clone, Copy, Debug, PartialEq, Eq, Structural)]
pub struct VerifiedContent {
    pub records: usize,
    pub values: usize,
    pub bytes: u64,
}

/// A count, held at the largest one that fits.
pub open spec fn fit(n: nat) -> usize {
    if n > usize::MAX {
        usize::MAX
    } else {
        n as usize
    }
}

/// A byte count, held at the largest one that fits.
pub open spec fn fit64(n: nat) -> u64 {
    if n > u64::MAX {
        u64::MAX
    } else {
        n as u64
    }
}

/// The counts of a tally.
pub open spec fn counted(t: Tally) -> VerifiedContent {
    VerifiedContent { records: fit(t.records), values: fit(t.values), bytes: fit64(t.bytes) }
}

/// Add to a count, up to the largest one that fits.
pub(crate) fn add_fit(a: usize, b: usize, Ghost(na): Ghost<nat>) -> (r: usize)
    requires
        a == fit(na),
    ensures
        r == fit(na + b as nat),
{
    match a.checked_add(b) {
        Some(s) => s,
        None => usize::MAX,
    }
}

/// Add to a byte count, up to the largest one that fits.
pub(crate) fn add_fit64(a: u64, b: u64, Ghost(na): Ghost<nat>) -> (r: u64)
    requires
        a == fit64(na),
    ensures
        r == fit64(na + b as nat),
{
    match a.checked_add(b) {
        Some(s) => s,
        None => u64::MAX,
    }
}

proof fn lemma_record_fault_prefix(
    parts: Seq<PartView>,
    f: FoldView,
    p: int,
    row: int,
    retained: bool,
    k: nat,
    n: nat,
)
    requires
        k <= n,
        record_fault(parts, f, p, row, retained, k) is Some,
    ensures
        record_fault(parts, f, p, row, retained, n) == record_fault(
            parts,
            f,
            p,
            row,
            retained,
            k,
        ),
    decreases n,
{
    if k < n {
        lemma_record_fault_prefix(parts, f, p, row, retained, k, (n - 1) as nat);
    }
}

proof fn lemma_part_fault_prefix(
    parts: Seq<PartView>,
    f: FoldView,
    p: int,
    retained: bool,
    k: nat,
    n: nat,
)
    requires
        k <= n,
        part_value_fault(parts, f, p, retained, k) is Some,
    ensures
        part_value_fault(parts, f, p, retained, n) == part_value_fault(parts, f, p, retained, k),
    decreases n,
{
    if k < n {
        lemma_part_fault_prefix(parts, f, p, retained, k, (n - 1) as nat);
    }
}

proof fn lemma_values_fault_prefix(
    parts: Seq<PartView>,
    f: FoldView,
    retained: bool,
    k: nat,
    n: nat,
)
    requires
        k <= n,
        values_fault(parts, f, retained, k) is Some,
    ensures
        values_fault(parts, f, retained, n) == values_fault(parts, f, retained, k),
    decreases n,
{
    if k < n {
        lemma_values_fault_prefix(parts, f, retained, k, (n - 1) as nat);
    }
}

/// Verify every value of one record, and count its bytes.
pub(crate) fn verify_record(
    parts: &Vec<Part>,
    f: &Fold,
    p: usize,
    row: usize,
    record: &Record,
    retained: bool,
) -> (r: Result<u64, ValueFault>)
    requires
        p < parts@.len(),
        row < parts@[p as int].rows@.len(),
        parts@[p as int].rows@[row as int].record == Some(*record),
    ensures
        ({
            let all = part::parts_view(parts@);
            let contents = all[p as int].rows[row as int].record->0.contents;
            let fault = record_fault(all, f@, p as int, row as int, retained, contents.len());
            match r {
                Ok(bytes) => fault is None && bytes == fit64(
                    record_bytes(all[p as int], f@, contents, contents.len()),
                ),
                Err(e) => fault == Some(e),
            }
        }),
{
    let ghost all = part::parts_view(parts@);
    let ghost contents = record@.contents;
    let owner = &parts[p];
    assert(all[p as int] == owner@);
    assert(all[p as int].rows[row as int] == owner.rows@[row as int]@);
    let mut bytes: u64 = 0;
    let mut k: usize = 0;
    while k < record.contents.len()
        invariant
            all == part::parts_view(parts@),
            p < parts@.len(),
            row < parts@[p as int].rows@.len(),
            *owner == parts@[p as int],
            all[p as int] == owner@,
            contents == record@.contents,
            all[p as int].rows[row as int].record == Some(record@),
            k <= record.contents@.len(),
            record_fault(all, f@, p as int, row as int, retained, k as nat) is None,
            bytes == fit64(record_bytes(owner@, f@, contents, k as nat)),
        decreases record.contents.len() - k,
    {
        let c = &record.contents[k];
        assert(contents[k as int] == c@);
        match part::verify_value(&owner.pieces, f, c) {
            Ok(b) => {
                bytes =
                add_fit64(
                    bytes,
                    b.len() as u64,
                    Ghost(record_bytes(owner@, f@, contents, k as nat)),
                );
            },
            Err(error) => {
                let erased = match error {
                    ReadError::Fold { error: FoldError::Erased { block_id } } => true,
                    _ => false,
                };
                assert(erased == is_erasure(error));
                if !(retained && erased) {
                    proof {
                        lemma_record_fault_prefix(
                            all,
                            f@,
                            p as int,
                            row as int,
                            retained,
                            (k + 1) as nat,
                            contents.len(),
                        );
                    }
                    return Err(ValueFault { part: p, row, content: k, error });
                }
            },
        }
        k = k + 1;
    }
    Ok(bytes)
}

fn verify_part(
    parts: &Vec<Part>,
    f: &Fold,
    p: usize,
    retained: bool,
    start: VerifiedContent,
    Ghost(t): Ghost<Tally>,
) -> (r: Result<VerifiedContent, ValueFault>)
    requires
        part::parts_sound(part::parts_view(parts@)),
        p < parts@.len(),
        start == counted(t),
    ensures
        ({
            let all = part::parts_view(parts@);
            let n = all[p as int].rows.len();
            let fault = part_value_fault(all, f@, p as int, retained, n);
            match r {
                Ok(v) => fault is None && v == counted(tally_part(all, f@, p as int, n, t)),
                Err(e) => fault == Some(e),
            }
        }),
{
    let ghost all = part::parts_view(parts@);
    let this = &parts[p];
    assert(all[p as int] == this@);
    let mut v = start;
    let mut row: usize = 0;
    while row < this.rows.len()
        invariant
            all == part::parts_view(parts@),
            part::parts_sound(all),
            p < parts@.len(),
            *this == parts@[p as int],
            all[p as int] == this@,
            row <= this.rows@.len(),
            part_value_fault(all, f@, p as int, retained, row as nat) is None,
            v == counted(tally_part(all, f@, p as int, row as nat, t)),
        decreases this.rows.len() - row,
    {
        let ghost so_far = tally_part(all, f@, p as int, row as nat, t);
        assert(all[p as int].rows[row as int] == this.rows@[row as int]@);
        if let Some(record) = &this.rows[row].record {
            if !read::newer_holds(parts, p, this.rows[row].id.as_str()) {
                match verify_record(parts, f, p, row, record, retained) {
                    Err(e) => {
                        proof {
                            lemma_part_fault_prefix(
                                all,
                                f@,
                                p as int,
                                retained,
                                (row + 1) as nat,
                                all[p as int].rows.len(),
                            );
                        }
                        return Err(e);
                    },
                    Ok(bytes) => {
                        let ghost contents = record@.contents;
                        let ghost exact = record_bytes(this@, f@, contents, contents.len());
                        let total: u64 = match v.bytes.checked_add(bytes) {
                            Some(s) => s,
                            None => u64::MAX,
                        };
                        assert(total == fit64(so_far.bytes + exact));
                        v =
                        VerifiedContent {
                            records: add_fit(v.records, 1, Ghost(so_far.records)),
                            values: add_fit(
                                v.values,
                                record.contents.len(),
                                Ghost(so_far.values),
                            ),
                            bytes: total,
                        };
                    },
                }
            }
        }
        row = row + 1;
    }
    Ok(v)
}

/// Verify every live content value of the parts, and count them. In a retained view a value whose
/// content was given up since is passed over.
pub fn verify_visible_content(parts: &Vec<Part>, f: &Fold, retained: bool) -> (r: Result<
    VerifiedContent,
    ValueFault,
>)
    requires
        part::parts_sound(part::parts_view(parts@)),
    ensures
        ({
            let all = part::parts_view(parts@);
            let fault = values_fault(all, f@, retained, all.len());
            match r {
                Ok(v) => fault is None && v == counted(tally(all, f@, all.len())),
                Err(e) => fault == Some(e),
            }
        }),
{
    let ghost all = part::parts_view(parts@);
    let mut v = VerifiedContent { records: 0, values: 0, bytes: 0 };
    let mut p: usize = 0;
    while p < parts.len()
        invariant
            all == part::parts_view(parts@),
            part::parts_sound(all),
            p <= parts@.len(),
            values_fault(all, f@, retained, p as nat) is None,
            v == counted(tally(all, f@, p as nat)),
        decreases parts.len() - p,
    {
        match verify_part(parts, f, p, retained, v, Ghost(tally(all, f@, p as nat))) {
            Ok(more) => {
                v = more;
            },
            Err(e) => {
                proof {
                    lemma_values_fault_prefix(all, f@, retained, (p + 1) as nat, all.len());
                }
                return Err(e);
            },
        }
        p = p + 1;
    }
    Ok(v)
}

/// A view whose values have no fault reads every live value byte-exactly.
pub proof fn lemma_audited_reads(
    parts: Seq<PartView>,
    f: FoldView,
    id: Seq<char>,
    k: int,
)
    requires
        part::parts_sound(parts),
        values_fault(parts, f, false, parts.len()) is None,
        read::current(parts, id) is Some,
        0 <= k < read::current(parts, id)->0.contents.len(),
    ensures
        ({
            let (p, row) = read::located(parts, id)->0;
            part::verified_value(
                parts[p as int].pieces,
                f,
                read::current(parts, id)->0.contents[k],
            ) is Ok
        }),
{
    read::lemma_newest(parts, id);
    let (p, row) = read::newest(parts, id)->0;
    read::lemma_live_is_located(parts, p as int, row as int);
    lemma_values_each(parts, f, false, parts.len(), p as int);
    lemma_part_each(parts, f, p as int, false, parts[p as int].rows.len(), row as int);
    lemma_record_each(
        parts,
        f,
        p as int,
        row as int,
        false,
        parts[p as int].rows[row as int].record->0.contents.len(),
        k,
    );
}

pub proof fn lemma_values_each(parts: Seq<PartView>, f: FoldView, retained: bool, n: nat, p: int)
    requires
        values_fault(parts, f, retained, n) is None,
        0 <= p < n,
    ensures
        part_value_fault(parts, f, p, retained, parts[p].rows.len()) is None,
    decreases n,
{
    if p < n - 1 {
        lemma_values_each(parts, f, retained, (n - 1) as nat, p);
    }
}

pub proof fn lemma_part_each(
    parts: Seq<PartView>,
    f: FoldView,
    p: int,
    retained: bool,
    n: nat,
    row: int,
)
    requires
        part_value_fault(parts, f, p, retained, n) is None,
        0 <= row < n,
    ensures
        row_value_fault(parts, f, p, row, retained) is None,
    decreases n,
{
    if row < n - 1 {
        lemma_part_each(parts, f, p, retained, (n - 1) as nat, row);
    }
}

proof fn lemma_record_each(
    parts: Seq<PartView>,
    f: FoldView,
    p: int,
    row: int,
    retained: bool,
    n: nat,
    k: int,
)
    requires
        record_fault(parts, f, p, row, retained, n) is None,
        0 <= k < n,
    ensures
        one_fault(parts[p], f, parts[p].rows[row].record->0.contents[k], retained) is None,
    decreases n,
{
    if k < n - 1 {
        lemma_record_each(parts, f, p, row, retained, (n - 1) as nat, k);
    }
}

} // verus!
