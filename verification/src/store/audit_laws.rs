//! Laws of verification: what it accepts holds of every shown value, what it refuses is not sound,
//! and what it counts is what a reader would count.

use crate::bytes;
use crate::fold;
use crate::fold::{BlockView, FoldView, Loc};
use crate::hash;
use crate::part;
use crate::part::PartView;
use crate::store::artifact;
use crate::store::audit;
use crate::store::audit::Tally;
use crate::store::chain::ChainReport;
use crate::store::count_laws;
use crate::store::names::SEG_HDR_LEN;
use crate::store::read;
use crate::store::read::Verdict;
use crate::store::sum_laws;
use crate::types;
use crate::types::ContentView;
use vstd::prelude::*;

verus! {

// ---------------------------------------------------------------------------------------------
// What is counted.
// ---------------------------------------------------------------------------------------------
/// The contents of the record shown for an id.
pub open spec fn shown_contents(parts: Seq<PartView>, id: Seq<char>) -> Seq<ContentView> {
    read::current(parts, id)->0.contents
}

/// How many bytes the values of the record shown for an id have, each read by its name.
pub open spec fn bytes_shown(parts: Seq<PartView>, f: FoldView, id: Seq<char>) -> nat {
    let contents = shown_contents(parts, id);
    sum_laws::sum(
        contents.len(),
        |k: int| (read::value_of(parts, f, id, contents[k].name)->Ok_0)->0.len(),
    )
}

/// Whether each shown record's values have names of their own.
pub open spec fn named_apart(parts: Seq<PartView>) -> bool {
    forall|id: Seq<char>|
        (#[trigger] read::current(parts, id)) is Some ==> types::names_unique(
            shown_contents(parts, id),
        )
}

pub proof fn lemma_named(contents: Seq<ContentView>, k: int)
    requires
        types::names_unique(contents),
        0 <= k < contents.len(),
    ensures
        part::content_named(contents, contents[k].name) == Some(contents[k]),
    decreases contents.len(),
{
    if k > 0 {
        let rest = contents.drop_first();
        assert(contents[0].name != contents[k].name);
        assert forall|i: int, j: int| 0 <= i < j < rest.len() implies (#[trigger] rest[i]).name
            != (#[trigger] rest[j]).name by {
            assert(rest[i] == contents[i + 1] && rest[j] == contents[j + 1]);
        }
        assert forall|i: int| 0 <= i < rest.len() implies (#[trigger] rest[i]).name.len() > 0 by {
            assert(rest[i] == contents[i + 1]);
        }
        lemma_named(rest, k - 1);
    }
}

/// A verified value is what a reader gets for its name.
proof fn lemma_value_read(parts: Seq<PartView>, f: FoldView, id: Seq<char>, k: int)
    requires
        part::parts_sound(parts),
        audit::values_fault(parts, f, false, parts.len()) is None,
        read::current(parts, id) is Some,
        types::names_unique(shown_contents(parts, id)),
        0 <= k < shown_contents(parts, id).len(),
    ensures
        ({
            let c = shown_contents(parts, id)[k];
            let (p, row) = read::located(parts, id)->0;
            &&& read::value_of(parts, f, id, c.name) is Ok
            &&& read::value_of(parts, f, id, c.name)->Ok_0 is Some
            &&& part::verified_value(parts[p as int].pieces, f, c) == Ok::<
                Seq<u8>,
                part::ReadError,
            >((read::value_of(parts, f, id, c.name)->Ok_0)->0)
            &&& c.identity == Some(
                hash::blake3_digest((read::value_of(parts, f, id, c.name)->Ok_0)->0),
            )
        }),
{
    audit::lemma_audited_reads(parts, f, id, k);
    lemma_named(shown_contents(parts, id), k);
}

proof fn lemma_record_bytes(parts: Seq<PartView>, f: FoldView, id: Seq<char>, n: nat)
    requires
        part::parts_sound(parts),
        audit::values_fault(parts, f, false, parts.len()) is None,
        read::current(parts, id) is Some,
        types::names_unique(shown_contents(parts, id)),
        n <= shown_contents(parts, id).len(),
    ensures
        ({
            let (p, row) = read::located(parts, id)->0;
            let contents = shown_contents(parts, id);
            audit::record_bytes(parts[p as int], f, contents, n) == sum_laws::sum(
                n,
                |k: int| (read::value_of(parts, f, id, contents[k].name)->Ok_0)->0.len(),
            )
        }),
    decreases n,
{
    let contents = shown_contents(parts, id);
    let each = |k: int| (read::value_of(parts, f, id, contents[k].name)->Ok_0)->0.len();
    if n > 0 {
        lemma_record_bytes(parts, f, id, (n - 1) as nat);
        lemma_value_read(parts, f, id, n - 1);
        sum_laws::lemma_sum((n - 1) as nat, each);
    } else {
        sum_laws::lemma_sum(0, each);
    }
}

/// A tally of what ids show.
spec fn tally_of(parts: Seq<PartView>, f: FoldView, ids: Seq<Seq<char>>) -> Tally {
    Tally {
        records: ids.len(),
        values: sum_laws::total(ids.map_values(|id: Seq<char>| shown_contents(parts, id).len())),
        bytes: sum_laws::total(ids.map_values(|id: Seq<char>| bytes_shown(parts, f, id))),
    }
}

proof fn lemma_tally_push(parts: Seq<PartView>, f: FoldView, ids: Seq<Seq<char>>, id: Seq<char>)
    ensures
        ({
            let (a, b) = (tally_of(parts, f, ids), tally_of(parts, f, ids.push(id)));
            &&& b.records == a.records + 1
            &&& b.values == a.values + shown_contents(parts, id).len()
            &&& b.bytes == a.bytes + bytes_shown(parts, f, id)
        }),
{
    let v = |x: Seq<char>| shown_contents(parts, x).len();
    let b = |x: Seq<char>| bytes_shown(parts, f, x);
    assert(ids.push(id).map_values(v) =~= ids.map_values(v).push(v(id)));
    assert(ids.push(id).map_values(b) =~= ids.map_values(b).push(b(id)));
    sum_laws::lemma_total_push(ids.map_values(v), v(id));
    sum_laws::lemma_total_push(ids.map_values(b), b(id));
}

proof fn lemma_tally_part(
    parts: Seq<PartView>,
    f: FoldView,
    p: int,
    n: nat,
    before: Seq<Seq<char>>,
)
    requires
        part::parts_sound(parts),
        named_apart(parts),
        audit::values_fault(parts, f, false, parts.len()) is None,
        0 <= p < parts.len(),
        n <= parts[p].rows.len(),
    ensures
        audit::tally_part(parts, f, p, n, tally_of(parts, f, before)) == tally_of(
            parts,
            f,
            before + count_laws::live_in(parts, p, n),
        ),
    decreases n,
{
    if n > 0 {
        let m = (n - 1) as nat;
        lemma_tally_part(parts, f, p, m, before);
        let mid = before + count_laws::live_in(parts, p, m);
        let id = parts[p].rows[n - 1].id;
        if read::verdict(parts, p, n - 1) == Verdict::Live {
            read::lemma_live_is_located(parts, p, n - 1);
            read::lemma_newest(parts, id);
            let contents = shown_contents(parts, id);
            lemma_record_bytes(parts, f, id, contents.len());
            lemma_tally_push(parts, f, mid, id);
            assert(before + count_laws::live_in(parts, p, n) =~= mid.push(id));
        } else {
            assert(before + count_laws::live_in(parts, p, n) =~= mid);
        }
    } else {
        assert(before + count_laws::live_in(parts, p, n) =~= before);
    }
}

proof fn lemma_tally(parts: Seq<PartView>, f: FoldView, n: nat)
    requires
        part::parts_sound(parts),
        named_apart(parts),
        audit::values_fault(parts, f, false, parts.len()) is None,
        n <= parts.len(),
    ensures
        audit::tally(parts, f, n) == tally_of(parts, f, count_laws::live_ids(parts, n)),
    decreases n,
{
    if n > 0 {
        let m = (n - 1) as nat;
        lemma_tally(parts, f, m);
        lemma_tally_part(
            parts,
            f,
            n - 1,
            parts[n - 1].rows.len(),
            count_laws::live_ids(parts, m),
        );
    } else {
        let v = |x: Seq<char>| shown_contents(parts, x).len();
        let b = |x: Seq<char>| bytes_shown(parts, f, x);
        let none = Seq::<Seq<char>>::empty();
        assert(none.map_values(v) =~= Seq::<nat>::empty());
        assert(none.map_values(b) =~= Seq::<nat>::empty());
        sum_laws::lemma_total_push(Seq::empty(), 0);
    }
}

/// What a verification that succeeds counts, whatever the order in which the shown ids are listed:
/// the records shown, their values, and the bytes that reading each value by its id and its name
/// gives; each up to the largest number that fits.
pub proof fn lemma_verified_counts(
    parts: Seq<PartView>,
    f: FoldView,
    chain: ChainReport,
    ids: Seq<Seq<char>>,
)
    requires
        part::parts_sound(parts),
        named_apart(parts),
        artifact::committed(parts, f, chain) is Ok,
        ids.no_duplicates(),
        forall|id: Seq<char>| #[trigger] ids.contains(id) <==> read::current(parts, id) is Some,
    ensures
        ({
            let r = artifact::committed(parts, f, chain)->Ok_0;
            let values = sum_laws::total(
                ids.map_values(|id: Seq<char>| shown_contents(parts, id).len()),
            );
            let bytes = sum_laws::total(ids.map_values(|id: Seq<char>| bytes_shown(parts, f, id)));
            &&& r.records == sum_laws::held_at(ids.len(), usize::MAX as nat)
            &&& r.content_values == sum_laws::held_at(values, usize::MAX as nat)
            &&& r.content_identities == r.content_values
            &&& r.content_bytes == sum_laws::held_at(bytes, u64::MAX as nat)
            &&& r.chain == chain
            &&& parts.len() <= usize::MAX ==> r.parts == parts.len()
        }),
{
    let live = count_laws::live_ids(parts, parts.len());
    count_laws::lemma_live_shown(parts);
    lemma_tally(parts, f, parts.len());
    assert forall|id: Seq<char>| #[trigger] live.contains(id) <==> ids.contains(id) by {
        assert(live.contains(id) <==> read::current(parts, id) is Some);
    }
    sum_laws::lemma_total_any_order(
        live,
        ids,
        |id: Seq<char>| shown_contents(parts, id).len(),
    );
    sum_laws::lemma_total_any_order(live, ids, |id: Seq<char>| bytes_shown(parts, f, id));
}

/// Every value of a verified store reads by its id and its name, and is the one its identity names.
pub proof fn lemma_verified_values(
    parts: Seq<PartView>,
    f: FoldView,
    chain: ChainReport,
    id: Seq<char>,
    k: int,
)
    requires
        part::parts_sound(parts),
        named_apart(parts),
        artifact::committed(parts, f, chain) is Ok,
        read::current(parts, id) is Some,
        0 <= k < shown_contents(parts, id).len(),
    ensures
        ({
            let c = shown_contents(parts, id)[k];
            let value = read::value_of(parts, f, id, c.name);
            &&& value is Ok && value->Ok_0 is Some
            &&& c.identity == Some(hash::blake3_digest((value->Ok_0)->0))
        }),
{
    lemma_value_read(parts, f, id, k);
}

// ---------------------------------------------------------------------------------------------
// What is counted of the fold.
// ---------------------------------------------------------------------------------------------
proof fn lemma_decoded(blocks: Seq<BlockView>, n: nat)
    requires
        n <= blocks.len(),
    ensures
        artifact::decoded_bytes(blocks, n) == sum_laws::sum(n, |i: int| blocks[i].bytes.len()),
    decreases n,
{
    let each = |i: int| blocks[i].bytes.len();
    if n > 0 {
        lemma_decoded(blocks, (n - 1) as nat);
        sum_laws::lemma_sum((n - 1) as nat, each);
    } else {
        sum_laws::lemma_sum(0, each);
    }
}

proof fn lemma_sections(parts: Seq<PartView>, n: nat)
    requires
        n <= parts.len(),
    ensures
        artifact::sections_total(parts, n) == sum_laws::sum(n, |i: int| parts[i].sections as nat),
    decreases n,
{
    let each = |i: int| parts[i].sections as nat;
    if n > 0 {
        lemma_sections(parts, (n - 1) as nat);
        sum_laws::lemma_sum((n - 1) as nat, each);
    } else {
        sum_laws::lemma_sum(0, each);
    }
}

/// What a verification counts of the fold and the parts: segments, blocks, the bytes the blocks
/// decode to, and the parts' sections.
pub proof fn lemma_verified_fold(parts: Seq<PartView>, f: FoldView, chain: ChainReport)
    requires
        artifact::committed(parts, f, chain) is Ok,
    ensures
        ({
            let r = artifact::committed(parts, f, chain)->Ok_0;
            let most = usize::MAX as nat;
            &&& r.fold.segments == sum_laws::held_at(f.segments.len(), most)
            &&& r.fold.blocks == sum_laws::held_at(f.blocks.len(), most)
            &&& r.fold.bytes == sum_laws::held_at(
                sum_laws::sum(f.blocks.len(), |i: int| f.blocks[i].bytes.len()),
                u64::MAX as nat,
            )
            &&& r.part_sections == sum_laws::held_at(
                sum_laws::sum(parts.len(), |i: int| parts[i].sections as nat),
                most,
            )
        }),
{
    lemma_decoded(f.blocks, f.blocks.len());
    lemma_sections(parts, parts.len());
}

// ---------------------------------------------------------------------------------------------
// What is accepted.
// ---------------------------------------------------------------------------------------------
/// Whether the last frame of a segment ends where the segment does: a segment without frames ends
/// with its header.
pub open spec fn dense(f: FoldView, i: int) -> bool {
    let (seg, len) = f.segments[i];
    ||| (len == SEG_HDR_LEN && forall|b: int|
        0 <= b < f.blocks.len() ==> (#[trigger] f.blocks[b]).segment != seg)
    ||| exists|b: int|
        0 <= b < f.blocks.len() && (#[trigger] f.blocks[b]).segment == seg && f.blocks[b].end == len
            && forall|a: int| b < a < f.blocks.len() ==> (#[trigger] f.blocks[a]).segment != seg
}

proof fn lemma_frames_end(blocks: Seq<BlockView>, seg: u32, n: nat)
    requires
        n <= blocks.len(),
    ensures
        ({
            let end = artifact::frames_end(blocks, seg, n);
            ||| end == SEG_HDR_LEN && forall|b: int|
                0 <= b < n ==> (#[trigger] blocks[b]).segment != seg
            ||| exists|b: int|
                0 <= b < n && (#[trigger] blocks[b]).segment == seg && blocks[b].end == end
                    && forall|a: int| b < a < n ==> (#[trigger] blocks[a]).segment != seg
        }),
    decreases n,
{
    if n > 0 {
        if blocks[n - 1].segment == seg {
            assert(blocks[n - 1].end == artifact::frames_end(blocks, seg, n));
        } else {
            lemma_frames_end(blocks, seg, (n - 1) as nat);
            if exists|b: int|
                0 <= b < n - 1 && (#[trigger] blocks[b]).segment == seg && blocks[b].end
                    == artifact::frames_end(blocks, seg, (n - 1) as nat) && forall|a: int|
                    b < a < n - 1 ==> (#[trigger] blocks[a]).segment != seg {
                let b = choose|b: int|
                    0 <= b < n - 1 && (#[trigger] blocks[b]).segment == seg && blocks[b].end
                        == artifact::frames_end(blocks, seg, (n - 1) as nat) && forall|a: int|
                        b < a < n - 1 ==> (#[trigger] blocks[a]).segment != seg;
                assert(blocks[b].segment == seg);
            }
        }
    }
}

pub proof fn lemma_frames(f: FoldView, n: nat)
    requires
        n <= f.segments.len(),
    ensures
        artifact::frames_fault(f, n) is None <==> forall|i: int| 0 <= i < n ==> dense(f, i),
    decreases n,
{
    if n > 0 {
        lemma_frames(f, (n - 1) as nat);
        let (seg, len) = f.segments[n - 1];
        let end = artifact::frames_end(f.blocks, seg, f.blocks.len());
        lemma_frames_end(f.blocks, seg, f.blocks.len());
        assert(end == len <==> dense(f, n - 1)) by {
            if dense(f, n - 1) {
                if exists|b: int|
                    0 <= b < f.blocks.len() && (#[trigger] f.blocks[b]).segment == seg {
                    let b = choose|b: int|
                        0 <= b < f.blocks.len() && (#[trigger] f.blocks[b]).segment == seg
                            && f.blocks[b].end == len && forall|a: int|
                            b < a < f.blocks.len() ==> (#[trigger] f.blocks[a]).segment != seg;
                    let c = choose|c: int|
                        0 <= c < f.blocks.len() && (#[trigger] f.blocks[c]).segment == seg
                            && f.blocks[c].end == end && forall|a: int|
                            c < a < f.blocks.len() ==> (#[trigger] f.blocks[a]).segment != seg;
                    assert(b == c);
                }
            }
        }
    }
}

/// Whether a dictionary entry was given up, or reads as its piece.
pub open spec fn entry_reads(f: FoldView, e: (Seq<u8>, Loc)) -> bool {
    fold::in_ranges(f.punched, e.1.block_id) || fold::fold_read(f, e.1, e.0) is Ok
}

pub proof fn lemma_dictionary(f: FoldView, pieces: Seq<(Seq<u8>, Loc)>, n: nat)
    requires
        n <= pieces.len(),
    ensures
        audit::dictionary_fault(f, pieces, n) is None <==> forall|i: int|
            0 <= i < n ==> entry_reads(f, #[trigger] pieces[i]),
    decreases n,
{
    if n > 0 {
        lemma_dictionary(f, pieces, (n - 1) as nat);
    }
}

pub proof fn lemma_dictionaries(parts: Seq<PartView>, f: FoldView, n: nat)
    requires
        n <= parts.len(),
    ensures
        artifact::dictionaries_fault(parts, f, n) is None <==> forall|p: int, i: int|
            0 <= p < n && 0 <= i < parts[p].pieces.len() ==> entry_reads(
                f,
                #[trigger] parts[p].pieces[i],
            ),
    decreases n,
{
    if n > 0 {
        lemma_dictionaries(parts, f, (n - 1) as nat);
        lemma_dictionary(f, parts[n - 1].pieces, parts[n - 1].pieces.len());
        if artifact::dictionaries_fault(parts, f, n) is Some && artifact::dictionaries_fault(
            parts,
            f,
            (n - 1) as nat,
        ) is None {
            let pieces = parts[n - 1].pieces;
            let i = choose|i: int|
                0 <= i < pieces.len() && !entry_reads(f, #[trigger] pieces[i]);
            assert(!entry_reads(f, parts[n - 1].pieces[i]));
        }
    }
}

/// Whether a value of a part verifies; in a retained view a value whose content was given up since
/// is passed over.
pub open spec fn value_holds(p: PartView, f: FoldView, c: ContentView, retained: bool) -> bool {
    match part::program_bytes(p.pieces, f, c.ops) {
        Ok(b) => c.identity == Some(hash::blake3_digest(b)),
        Err(e) => retained && (e matches part::ReadError::Fold { error } && error is Erased),
    }
}

proof fn lemma_record(
    parts: Seq<PartView>,
    f: FoldView,
    p: int,
    row: int,
    retained: bool,
    n: nat,
)
    requires
        n <= parts[p].rows[row].record->0.contents.len(),
    ensures
        audit::record_fault(parts, f, p, row, retained, n) is None <==> forall|k: int|
            0 <= k < n ==> value_holds(
                parts[p],
                f,
                #[trigger] parts[p].rows[row].record->0.contents[k],
                retained,
            ),
    decreases n,
{
    if n > 0 {
        lemma_record(parts, f, p, row, retained, (n - 1) as nat);
        let c = parts[p].rows[row].record->0.contents[n - 1];
        assert(audit::one_fault(parts[p], f, c, retained) is None <==> value_holds(
            parts[p],
            f,
            c,
            retained,
        ));
    }
}

/// Whether every value of the record shown for an id verifies.
pub open spec fn record_holds(parts: Seq<PartView>, f: FoldView, id: Seq<char>, retained: bool) -> bool {
    read::located(parts, id) matches Some((p, row)) ==> forall|k: int|
        0 <= k < parts[p as int].rows[row as int].record->0.contents.len() ==> value_holds(
            parts[p as int],
            f,
            #[trigger] parts[p as int].rows[row as int].record->0.contents[k],
            retained,
        )
}

proof fn lemma_part_values(parts: Seq<PartView>, f: FoldView, p: int, retained: bool, n: nat)
    requires
        part::parts_sound(parts),
        0 <= p < parts.len(),
        n <= parts[p].rows.len(),
    ensures
        audit::part_value_fault(parts, f, p, retained, n) is None <==> forall|r: int|
            0 <= r < n && read::located(parts, (#[trigger] parts[p].rows[r]).id) == Some(
                (p as nat, r as nat),
            ) ==> record_holds(parts, f, parts[p].rows[r].id, retained),
    decreases n,
{
    if n > 0 {
        lemma_part_values(parts, f, p, retained, (n - 1) as nat);
        read::lemma_live_is_located(parts, p, n - 1);
        let row = parts[p].rows[n - 1];
        if read::verdict(parts, p, n - 1) == Verdict::Live {
            lemma_record(parts, f, p, n - 1, retained, row.record->0.contents.len());
        }
    }
}

proof fn lemma_values(parts: Seq<PartView>, f: FoldView, retained: bool, n: nat)
    requires
        part::parts_sound(parts),
        n <= parts.len(),
    ensures
        audit::values_fault(parts, f, retained, n) is None <==> forall|p: int| #![trigger parts[p]]
            0 <= p < n ==> audit::part_value_fault(
                parts,
                f,
                p,
                retained,
                parts[p].rows.len(),
            ) is None,
    decreases n,
{
    if n > 0 {
        lemma_values(parts, f, retained, (n - 1) as nat);
    }
}

/// Values have no fault exactly where every value of every shown record verifies.
pub proof fn lemma_values_exactly(parts: Seq<PartView>, f: FoldView, retained: bool)
    requires
        part::parts_sound(parts),
    ensures
        audit::values_fault(parts, f, retained, parts.len()) is None <==> forall|id: Seq<char>|
            #[trigger] record_holds(parts, f, id, retained),
{
    lemma_values(parts, f, retained, parts.len());
    if audit::values_fault(parts, f, retained, parts.len()) is None {
        assert forall|id: Seq<char>| #[trigger] record_holds(parts, f, id, retained) by {
            read::lemma_newest(parts, id);
            if let Some((p, row)) = read::located(parts, id) {
                assert(parts[p as int].rows[row as int].id == id);
                lemma_part_values(parts, f, p as int, retained, parts[p as int].rows.len());
            }
        }
    }
    if forall|id: Seq<char>| #[trigger] record_holds(parts, f, id, retained) {
        assert forall|p: int| #![trigger parts[p]] 0 <= p < parts.len() implies audit::part_value_fault(
            parts,
            f,
            p,
            retained,
            parts[p].rows.len(),
        ) is None by {
            lemma_part_values(parts, f, p, retained, parts[p].rows.len());
        }
    }
}

/// A store verifies exactly where its frames lie dense to the end of every segment, every dictionary
/// entry that was not given up reads, and every value of every shown record is the one that its
/// identity names.
pub proof fn lemma_verifies_exactly(parts: Seq<PartView>, f: FoldView, chain: ChainReport)
    requires
        part::parts_sound(parts),
    ensures
        artifact::committed(parts, f, chain) is Ok <==> {
            &&& forall|i: int| 0 <= i < f.segments.len() ==> dense(f, i)
            &&& forall|p: int, i: int|
                0 <= p < parts.len() && 0 <= i < parts[p].pieces.len() ==> entry_reads(
                    f,
                    #[trigger] parts[p].pieces[i],
                )
            &&& forall|id: Seq<char>| #[trigger] record_holds(parts, f, id, false)
        },
{
    lemma_frames(f, f.segments.len());
    lemma_dictionaries(parts, f, parts.len());
    lemma_values_exactly(parts, f, false);
}

/// How many entries of a dictionary are counted: those that were not given up.
pub proof fn lemma_operational(f: FoldView, pieces: Seq<(Seq<u8>, Loc)>, n: nat)
    requires
        n <= pieces.len(),
    ensures
        audit::operational(f, pieces, n) == sum_laws::count(
            n,
            |i: int| !fold::in_ranges(f.punched, pieces[i].1.block_id),
        ),
    decreases n,
{
    let meets = |i: int| !fold::in_ranges(f.punched, pieces[i].1.block_id);
    if n > 0 {
        lemma_operational(f, pieces, (n - 1) as nat);
        sum_laws::lemma_count((n - 1) as nat, meets);
    } else {
        sum_laws::lemma_count(0, meets);
    }
}

/// A location has a shape exactly where its block is there and it lies inside it.
pub proof fn lemma_shape(f: FoldView, loc: Loc, h: Seq<u8>)
    ensures
        fold::shape_fault(f, loc) is None <==> loc.block_id < f.blocks.len() && loc.in_off
            + loc.raw <= f.blocks[loc.block_id as int].bytes.len(),
        fold::fold_read(f, loc, h) is Ok ==> fold::shape_fault(f, loc) is None,
{
}

/// What a piece reads as: the bytes that its location marks out of a block that was not given up,
/// and only where they are the ones that its identity names.
pub proof fn lemma_piece_read(f: FoldView, loc: Loc, h: Seq<u8>)
    ensures
        fold::fold_read(f, loc, h) is Ok <==> {
            &&& !fold::in_ranges(f.punched, loc.block_id)
            &&& loc.block_id < f.blocks.len()
            &&& loc.in_off + loc.raw <= f.blocks[loc.block_id as int].bytes.len()
            &&& hash::blake3_digest(
                f.blocks[loc.block_id as int].bytes.subrange(
                    loc.in_off as int,
                    loc.in_off + loc.raw,
                ),
            ) == h
        },
        fold::fold_read(f, loc, h) matches Ok(b) ==> b.len() == loc.raw && hash::blake3_digest(b)
            == h,
{
}

/// The rows of a part have no fault exactly where their ids ascend and each record has its row's id.
pub proof fn lemma_rows(rows: Seq<part::RowView>, n: nat)
    requires
        n <= rows.len(),
    ensures
        part::rows_fault(rows, n) is None <==> part::ids_ascending(rows.take(n as int))
            && part::ids_agree(rows.take(n as int)),
    decreases n,
{
    let now = rows.take(n as int);
    if n > 0 {
        let m = (n - 1) as nat;
        let before = rows.take(m as int);
        lemma_rows(rows, m);
        let last = rows[n - 1];
        assert(now[n - 1] == last);
        if part::rows_fault(rows, n) is None {
            assert forall|i: int, j: int| 0 <= i < j < now.len() implies bytes::name_lt(
                #[trigger] now[i].id,
                #[trigger] now[j].id,
            ) by {
                if j < m {
                    assert(before[i] == now[i] && before[j] == now[j]);
                } else if i < m - 1 {
                    assert(before[i] == now[i] && before[m - 1] == rows[m - 1]);
                    assert(bytes::name_lt(before[i].id, before[m - 1].id));
                    bytes::lemma_name_order(now[i].id, rows[m - 1].id, last.id);
                }
            }
            assert forall|i: int| 0 <= i < now.len() && (#[trigger] now[i]).record is Some implies
                now[i].record->0.id == now[i].id by {
                if i < m {
                    assert(before[i] == now[i]);
                }
            }
        }
        if part::ids_ascending(now) && part::ids_agree(now) {
            assert(part::ids_ascending(before)) by {
                assert forall|i: int, j: int| 0 <= i < j < before.len() implies bytes::name_lt(
                    #[trigger] before[i].id,
                    #[trigger] before[j].id,
                ) by {
                    assert(before[i] == now[i] && before[j] == now[j]);
                }
            }
            assert(part::ids_agree(before)) by {
                assert forall|i: int|
                    0 <= i < before.len() && (#[trigger] before[i]).record is Some implies
                    before[i].record->0.id == before[i].id by {
                    assert(before[i] == now[i]);
                }
            }
            if m > 0 {
                assert(now[m - 1] == rows[m - 1]);
                assert(bytes::name_lt(now[m - 1].id, now[n - 1].id));
            }
            assert(now[n - 1].record is Some ==> now[n - 1].record->0.id == now[n - 1].id);
        }
    }
}

} // verus!
