//! Laws of soundness: what a container, a retained revision, a candidate and a log must be to be
//! accepted.

use crate::container;
use crate::container::{ContainerView, MemberView};
use crate::fold;
use crate::fold::FoldView;
use crate::hash;
use crate::part;
use crate::part::PartView;
use crate::read_limits::ReadLimits;
use crate::store::artifact;
use crate::store::audit_laws;
use crate::store::chain;
use crate::store::chain_laws;
use crate::store::checksum;
use crate::store::manifest::ManifestView;
use crate::store::names;
use crate::store::namespace;
use crate::store::open;
use crate::store::open::{ReadStoreView, TailRule};
use crate::store::recover;
use crate::store::recover::{OpenVerification, StoreOptions};
use crate::store::sum_laws;
use crate::store::wal;
use crate::store::wal::FrameView;
use crate::store::writer::Novel;
use crate::text;
use crate::types::ContentView;
use vstd::prelude::*;
use vstd::utf8::*;

verus! {

// ---------------------------------------------------------------------------------------------
// Members.
// ---------------------------------------------------------------------------------------------
/// Whether a member is the current manifest, or a part that a manifest names.
pub open spec fn named_by(m: ManifestView, name: Seq<char>) -> bool {
    exists|j: int| 0 <= j < m.parts.len() && (#[trigger] m.parts[j]).member == name
}

/// Nothing foreign is admitted: every member of a store is its current manifest, a retained revision
/// under its own number that reads, a part that one of them names, or a member of a fold generation
/// that one of them references. A store without authority has no member at all.
pub proof fn lemma_nothing_foreign(
    ms: Seq<MemberView>,
    current: Option<ManifestView>,
    i: int,
)
    requires
        namespace::namespace_fault(ms, current) is None,
        0 <= i < ms.len(),
    ensures
        current is Some,
        ({
            let name = ms[i].name;
            let b = encode_utf8(name);
            ||| name == "MANIFEST"@
            ||| named_by(current->0, name)
            ||| bytes_of_revision(ms[i])
            ||| exists|k: int|
                #![trigger ms[k]]
                0 <= k < ms.len() && bytes_of_revision(ms[k]) && named_by(
                    container::member_manifest(ms[k])->Ok_0,
                    name,
                )
            ||| names::fold_member(b) && (names::fold_generation(b) == Some(current->0.fold_gen)
                || exists|k: int|
                #![trigger ms[k]]
                0 <= k < ms.len() && bytes_of_revision(ms[k]) && names::fold_generation(b) == Some(
                    container::member_manifest(ms[k])->Ok_0.fold_gen,
                ))
        }),
        namespace::claims_retained(ms[i].name) ==> bytes_of_revision(ms[i]),
{
    namespace::lemma_all_belong(ms, current, ms.len(), i);
    assert forall|k: int| 0 <= k < ms.len() && namespace::claims_retained(
        (#[trigger] ms[k]).name,
    ) implies bytes_of_revision(ms[k]) by {
        namespace::lemma_retained_each(ms, ms.len(), k);
        let c = names::signed_u64(namespace::revision_text(ms[k].name))->0;
        assert(encode_utf8(ms[k].name) == names::retained_name(c));
    }
    let name = ms[i].name;
    if namespace::admitted(ms, current, name) {
        if !(name == "MANIFEST"@ || namespace::names_part(current->0, name)) {
            let k = choose|k: int|
                0 <= k < ms.len() && namespace::claims_retained((#[trigger] ms[k]).name) && (
                ms[k].name == name || namespace::names_part(
                    container::member_manifest(ms[k])->Ok_0,
                    name,
                ));
            assert(bytes_of_revision(ms[k]));
            if ms[k].name == name {
                assert(namespace::claims_retained(ms[i].name));
            }
        }
    } else {
        let g = names::fold_generation(encode_utf8(name))->0;
        if current->0.fold_gen != g {
            let k = choose|k: int|
                0 <= k < ms.len() && namespace::claims_retained((#[trigger] ms[k]).name)
                    && container::member_manifest(ms[k])->Ok_0.fold_gen == g;
            assert(bytes_of_revision(ms[k]));
        }
    }
}

/// Whether a member is a retained revision: it has the name of one, reads, and is that one.
pub open spec fn bytes_of_revision(y: MemberView) -> bool {
    &&& container::member_manifest(y) is Ok
    &&& encode_utf8(y.name) == names::retained_name(container::member_manifest(y)->Ok_0.commit)
}

/// Where a container's members are the recorded ones, each has the checksum that was recorded for it,
/// unless the current revision gave up a block that lies in it.
pub proof fn lemma_members_recorded(ms: Seq<MemberView>, limits: ReadLimits, i: int)
    requires
        checksum::members_fault(ms, limits) is None,
        0 <= i < ms.len(),
    ensures
        hash::crc32_of(ms[i].bytes) == ms[i].checksum || (chain::authority_of(ms) matches Some(m)
            && open::fold_of(ms, m, m.punched, TailRule::Exact, limits) matches Ok(f)
            && exists|b: int|
            0 <= b < f.blocks.len() && b <= u32::MAX && fold::in_ranges(f.punched, b as u32)
                && ms[i].name == text::chars(
                names::segment_name(m.fold_gen, (#[trigger] f.blocks[b]).segment),
            )),
{
    reveal(checksum::members_fault);
    reveal(checksum::checksum_void);
    checksum::lemma_checksums_each(ms, limits, ms.len());
    assert(checksum::member_sound(ms, limits, ms[i]));
}

// ---------------------------------------------------------------------------------------------
// Retained revisions.
// ---------------------------------------------------------------------------------------------
/// Whether every dictionary entry of some parts that was not given up reads, and every value of every
/// record they show is the one its identity names, or, in a retained view, was given up since.
pub open spec fn view_holds(parts: Seq<PartView>, f: FoldView, retained: bool) -> bool {
    &&& forall|p: int, i: int|
        0 <= p < parts.len() && 0 <= i < parts[p].pieces.len() ==> audit_laws::entry_reads(
            f,
            #[trigger] parts[p].pieces[i],
        )
    &&& forall|id: Seq<char>| #[trigger] audit_laws::record_holds(parts, f, id, retained)
}

/// A retained revision has no fault exactly where it reads, opens under current authority, and its
/// view holds.
pub proof fn lemma_retained_one(
    ms: Seq<MemberView>,
    current: ManifestView,
    limits: ReadLimits,
    commit: u64,
)
    requires
        open::retained_view(ms, chain::revision(ms, commit)->Ok_0.1, current, limits) matches Ok(s)
            ==> part::parts_sound(s.parts),
    ensures
        artifact::retained_one(ms, current, limits, commit) is None <==> {
            &&& chain::revision(ms, commit) is Ok
            &&& open::retained_view(
                ms,
                chain::revision(ms, commit)->Ok_0.1,
                current,
                limits,
            ) matches Ok(s) && view_holds(s.parts, s.fold, true)
        },
{
    if chain::revision(ms, commit) is Ok {
        if let Ok(s) = open::retained_view(
            ms,
            chain::revision(ms, commit)->Ok_0.1,
            current,
            limits,
        ) {
            audit_laws::lemma_dictionaries(s.parts, s.fold, s.parts.len());
            audit_laws::lemma_values_exactly(s.parts, s.fold, true);
        }
    }
}

/// Retained revisions have no fault exactly where none of them has.
pub proof fn lemma_retained_all(
    ms: Seq<MemberView>,
    current: ManifestView,
    limits: ReadLimits,
    commits: Seq<u64>,
    n: nat,
)
    requires
        n <= commits.len(),
    ensures
        artifact::retained_all(ms, current, limits, commits, n) is None <==> forall|i: int|
            0 <= i < n ==> artifact::retained_one(
                ms,
                current,
                limits,
                #[trigger] commits[i],
            ) is None,
    decreases n,
{
    if n > 0 {
        lemma_retained_all(ms, current, limits, commits, (n - 1) as nat);
    }
}

// ---------------------------------------------------------------------------------------------
// Candidates.
// ---------------------------------------------------------------------------------------------
proof fn lemma_candidate_parts(ms: Seq<MemberView>, m: ManifestView, f: FoldView, n: nat)
    requires
        n <= m.parts.len(),
        artifact::candidate_parts(ms, m, f, n) is Ok,
    ensures
        ({
            let parts = artifact::candidate_parts(ms, m, f, n)->Ok_0;
            &&& parts.len() == n
            &&& forall|i: int|
                0 <= i < n ==> {
                    &&& chain_laws::pinned(ms, #[trigger] m.parts[i], true, false)
                    &&& chain::opened(ms, m.parts[i]) == Ok::<PartView, chain::PinFault>(parts[i])
                    &&& forall|k: int|
                        0 <= k < parts[i].pieces.len() ==> audit_laws::entry_reads(
                            f,
                            #[trigger] parts[i].pieces[k],
                        )
                }
        }),
    decreases n,
{
    if n > 0 {
        let j = n - 1;
        lemma_candidate_parts(ms, m, f, j as nat);
        let before = artifact::candidate_parts(ms, m, f, j as nat)->Ok_0;
        let parts = artifact::candidate_parts(ms, m, f, n)->Ok_0;
        chain_laws::lemma_pinned(ms, m.parts[j], true, false);
        let p = chain::opened(ms, m.parts[j])->Ok_0;
        audit_laws::lemma_dictionary(f, p.pieces, p.pieces.len());
        assert forall|i: int| 0 <= i < n implies {
            &&& chain_laws::pinned(ms, #[trigger] m.parts[i], true, false)
            &&& chain::opened(ms, m.parts[i]) == Ok::<PartView, chain::PinFault>(parts[i])
            &&& forall|k: int|
                0 <= k < parts[i].pieces.len() ==> audit_laws::entry_reads(
                    f,
                    #[trigger] parts[i].pieces[k],
                )
        } by {
            if i < j {
                assert(parts[i] == before[i]);
                assert(chain_laws::pinned(ms, m.parts[i], true, false));
            } else {
                assert(parts[i] == p);
            }
        }
    }
}

/// What a usable candidate is: its fold opens where it is cut at the revision's end, its frames lie
/// dense, every part it pins is there byte for byte and opens, every dictionary entry reads and every
/// value it shows is the one its identity names. It is reported with as many parts as it pins, and
/// with the records and values that it shows.
pub proof fn lemma_candidate(ms: Seq<MemberView>, m: ManifestView, limits: ReadLimits)
    requires
        artifact::candidate(ms, m, limits) is Ok,
        m.parts.len() <= usize::MAX,
        part::parts_sound(
            artifact::candidate_parts(
                ms,
                m,
                open::fold_of(ms, m, m.punched, TailRule::Cut, limits)->Ok_0,
                m.parts.len(),
            )->Ok_0,
        ),
    ensures
        ({
            let r = artifact::candidate(ms, m, limits)->Ok_0;
            let f = open::fold_of(ms, m, m.punched, TailRule::Cut, limits)->Ok_0;
            let parts = artifact::candidate_parts(ms, m, f, m.parts.len())->Ok_0;
            &&& open::fold_of(ms, m, m.punched, TailRule::Cut, limits) is Ok
            &&& forall|i: int| 0 <= i < f.segments.len() ==> audit_laws::dense(f, i)
            &&& parts.len() == m.parts.len()
            &&& forall|i: int|
                0 <= i < m.parts.len() ==> chain_laws::pinned(
                    ms,
                    #[trigger] m.parts[i],
                    true,
                    false,
                )
            &&& view_holds(parts, f, false)
            &&& r.parts == m.parts.len()
            &&& r.fold.blocks == sum_laws::held_at(f.blocks.len(), usize::MAX as nat)
            &&& r.fold.segments == sum_laws::held_at(f.segments.len(), usize::MAX as nat)
        }),
{
    let f = open::fold_of(ms, m, m.punched, TailRule::Cut, limits)->Ok_0;
    let parts = artifact::candidate_parts(ms, m, f, m.parts.len())->Ok_0;
    audit_laws::lemma_frames(f, f.segments.len());
    lemma_candidate_parts(ms, m, f, m.parts.len());
    audit_laws::lemma_values_exactly(parts, f, false);
    assert forall|p: int, i: int|
        0 <= p < parts.len() && 0 <= i < parts[p].pieces.len() implies audit_laws::entry_reads(
        f,
        #[trigger] parts[p].pieces[i],
    ) by {
        assert(chain_laws::pinned(ms, m.parts[p], true, false));
    }
}

// ---------------------------------------------------------------------------------------------
// Logs.
// ---------------------------------------------------------------------------------------------
proof fn lemma_introduced(pending: Novel, novel: Novel, n: nat)
    requires
        n <= novel.len(),
        recover::introduced(pending, novel, n) is Ok,
    ensures
        recover::introduced(pending, novel, n)->Ok_0 == pending + novel.take(n as int),
        forall|i: int|
            0 <= i < n ==> hash::blake3_digest((#[trigger] novel[i]).1) == novel[i].0
                && novel[i].1.len() <= u32::MAX,
    decreases n,
{
    if n > 0 {
        lemma_introduced(pending, novel, (n - 1) as nat);
        assert(pending + novel.take(n as int) =~= (pending + novel.take(n - 1)).push(
            novel[n - 1],
        ));
    } else {
        assert(pending + novel.take(0) =~= pending);
    }
}

proof fn lemma_values(s: ReadStoreView, pending: Novel, contents: Seq<ContentView>, n: nat)
    requires
        n <= contents.len(),
    ensures
        recover::frame_values_fault(s, pending, contents, n) is None <==> forall|k: int|
            0 <= k < n ==> logged_holds(s, pending, #[trigger] contents[k]),
    decreases n,
{
    if n > 0 {
        lemma_values(s, pending, contents, (n - 1) as nat);
        assert(recover::logged_fault(s, pending, contents[n - 1]) is None <==> logged_holds(
            s,
            pending,
            contents[n - 1],
        ));
    }
}

/// Whether a logged value can be put together, from pieces that the log introduced or the store
/// holds, and is the one its identity names.
pub open spec fn logged_holds(
    s: ReadStoreView,
    pending: Novel,
    c: ContentView,
) -> bool {
    recover::logged_program(s, pending, c.ops) matches Ok(b) && c.identity == Some(
        hash::blake3_digest(b),
    )
}

/// What a log that is accepted holds: each frame is of the sequence that is published, or of the next
/// one, and none of the first comes after one of the second; each piece it introduces is the one its
/// identity names; and each value can be put together from what was introduced so far and from the
/// store, and is the one its identity names.
pub proof fn lemma_log_accepted(s: ReadStoreView, frames: Seq<FrameView>, k: int)
    requires
        recover::walk(s, frames, frames.len()) is Ok,
        0 <= k < frames.len(),
    ensures
        ({
            let f = frames[k];
            let m = s.manifest;
            let at = recover::walk(s, frames, k as nat)->Ok_0;
            let pending = at.pending + f.novel;
            &&& (m.commit != 0 && f.seq == m.next_seq) || f.seq == m.next_seq + 1
            &&& at.saw_pending ==> f.seq == m.next_seq + 1
            &&& forall|i: int|
                0 <= i < f.novel.len() ==> hash::blake3_digest((#[trigger] f.novel[i]).1)
                    == f.novel[i].0
            &&& forall|i: int|
                0 <= i < f.record.contents.len() ==> logged_holds(
                    s,
                    pending,
                    #[trigger] f.record.contents[i],
                )
        }),
{
    recover::lemma_walk_each(s, frames, frames.len(), k);
    let f = frames[k];
    let at = recover::walk(s, frames, k as nat)->Ok_0;
    lemma_introduced(at.pending, f.novel, f.novel.len());
    assert(f.novel.take(f.novel.len() as int) =~= f.novel);
    lemma_values(s, at.pending + f.novel, f.record.contents, f.record.contents.len());
}

// ---------------------------------------------------------------------------------------------
// Opening.
// ---------------------------------------------------------------------------------------------
/// What a store that opens is: its limits are usable, its current view opens, its log replays and is
/// accepted, and its chain holds. Where a deep verification was asked for, every part of the chain was
/// opened, its content verifies, and so does that of each retained revision.
pub proof fn lemma_opens_sound(c: ContainerView, log: Seq<u8>, o: StoreOptions)
    requires
        recover::preflight_fault(c, log, o) is None,
    ensures
        ({
            let s = open::current_view(c, o.read_limits)->Ok_0;
            let st = wal::replay_from(log, wal::replay_start(), o.read_limits)->Ok_0;
            let deep = o.open_verification == OpenVerification::Deep;
            let commits = chain::retained_commits(c.members);
            &&& o.write_limits.max_record_bytes > 0 && o.write_limits.max_batch_bytes > 0
            &&& o.write_limits.max_batch_records > 0 && o.write_limits.max_identifier_bytes > 0
            &&& open::current_view(c, o.read_limits) is Ok
            &&& wal::replay_from(log, wal::replay_start(), o.read_limits) is Ok
            &&& recover::walk(s, st.applied, st.applied.len()) is Ok
            &&& chain::chain_fault(c, deep) is None
            &&& deep ==> artifact::committed(s.parts, s.fold, chain::chain_report(c, true)) is Ok
            &&& deep ==> artifact::retained_all(
                c.members,
                s.manifest,
                o.read_limits,
                commits,
                commits.len(),
            ) is None
        }),
{
    reveal(recover::preflight_fault);
}

} // verus!
