//! Laws of refusals: what each operation refuses, why, and what it leaves as it was.

use crate::container::{ContainerView, MemberView};
use crate::read_limits::{ReadAdmissionError, ReadLimits};
use crate::store::admission;
use crate::store::admission::{
    IdentifierKind, RefusalView, SpansView, WriteFault, WriteLimits,
};
use crate::store::arrival;
use crate::store::arrival::{Arrival, ArrivalError, Found};
use crate::store::artifact;
use crate::store::artifact::{ArtifactError, CandidateError};
use crate::store::backup;
use crate::store::backup::RestoreControl;
use crate::store::batch_apply;
use crate::store::batch_apply::MemberView as BatchMember;
use crate::store::chain;
use crate::store::commit::CommitOutcome;
use crate::store::compact;
use crate::store::compact::CompactionBudget;
use crate::store::debris;
use crate::store::engine;
use crate::store::engine::{StoreFault, StoreView};
use crate::store::lifecycle;
use crate::store::lifecycle::CloseStep;
use crate::store::manifest::{ManifestError, ManifestView, MANIFEST_RETAIN};
use crate::store::promote;
use crate::store::promote::{
    ManifestPromotionError, ManifestPromotionOptions, ManifestPromotionReport,
};
use crate::store::promote_laws;
use crate::store::publish;
use crate::store::publish::PublishError;
use crate::store::punch;
use crate::store::sum_laws;
use crate::store::wal;
use crate::store::wal::WalError;
use crate::types::AttrView;
use vstd::prelude::*;
use vstd::utf8::*;

verus! {

// ---------------------------------------------------------------------------------------------
// Promotion.
// ---------------------------------------------------------------------------------------------
proof fn lemma_search(ms: Seq<MemberView>, limits: ReadLimits, commits: Seq<u64>, n: nat)
    requires
        n <= commits.len(),
    ensures
        match promote::newest_usable(ms, limits, commits, n) {
            Ok(Some(i)) => {
                &&& i < n
                &&& promote::usable(ms, limits, commits[i as int])
                &&& forall|j: int|
                    i < j < n ==> promote_laws::damaged(ms, limits, #[trigger] commits[j])
            },
            Ok(None) => forall|j: int|
                0 <= j < n ==> promote_laws::damaged(ms, limits, #[trigger] commits[j]),
            Err(e) => exists|i: int|
                0 <= i < n && promote::ceiling(ms, limits, #[trigger] commits[i]) == Some(e)
                    && !promote::usable(ms, limits, commits[i]) && forall|j: int|
                    i < j < n ==> promote_laws::damaged(ms, limits, #[trigger] commits[j]),
        },
    decreases n,
{
    if n > 0 {
        let last = commits[n - 1];
        if !promote::usable(ms, limits, last) {
            if let Some(e) = promote::ceiling(ms, limits, last) {
                assert(promote::ceiling(ms, limits, commits[n - 1]) == Some(e));
            } else {
                lemma_search(ms, limits, commits, (n - 1) as nat);
                if let Err(e) = promote::newest_usable(ms, limits, commits, (n - 1) as nat) {
                    let i = choose|i: int|
                        0 <= i < n - 1 && promote::ceiling(ms, limits, #[trigger] commits[i])
                            == Some(e) && !promote::usable(ms, limits, commits[i]) && forall|j: int|
                            i < j < n - 1 ==> promote_laws::damaged(
                                ms,
                                limits,
                                #[trigger] commits[j],
                            );
                    assert(promote::ceiling(ms, limits, commits[i]) == Some(e));
                }
            }
        }
    }
}

/// A promotion that finds nothing to promote has found every retained revision damaged.
#[verifier::spinoff_prover]
#[verifier::rlimit(40)]
pub proof fn lemma_nothing_usable(
    c: ContainerView,
    options: ManifestPromotionOptions,
    limits: ReadLimits,
    examined: usize,
)
    requires
        promote::promotion(c, options, limits) == Err::<
            (ManifestPromotionReport, ContainerView),
            ManifestPromotionError,
        >(ManifestPromotionError::NoUsableCandidate { examined }),
        chain::retained_commits(c.members).len() <= usize::MAX,
    ensures
        ({
            let commits = chain::retained_commits(c.members);
            &&& examined == commits.len()
            &&& forall|j: int|
                0 <= j < commits.len() ==> promote_laws::damaged(
                    c.members,
                    limits,
                    #[trigger] commits[j],
                )
        }),
{
    let commits = chain::retained_commits(c.members);
    lemma_search(c.members, limits, commits, commits.len());
    assert(promote::newest_usable(c.members, limits, commits, commits.len()) == Ok::<
        Option<nat>,
        CandidateError,
    >(None) && examined == commits.len()) by {
        lemma_no_history_answer(c.members, commits, commits.len());
        reveal(promote::promotion);
    }
}

/// What a history is refused for is never that nothing is usable, or too far back.
proof fn lemma_no_history_answer(ms: Seq<MemberView>, commits: Seq<u64>, n: nat)
    ensures
        promote::history_fault(ms, commits, n) matches Some(e) ==> !(e is NoUsableCandidate)
            && !(e is RollbackLimit) && !(e is Healthy),
    decreases n,
{
    if n > 0 {
        lemma_no_history_answer(ms, commits, (n - 1) as nat);
    }
}

/// A promotion that is refused for going back too far has found every revision newer than the one
/// it would go to damaged, and says how far back that one is.
#[verifier::spinoff_prover]
#[verifier::rlimit(40)]
pub proof fn lemma_too_far_back(
    c: ContainerView,
    options: ManifestPromotionOptions,
    limits: ReadLimits,
    needed: u64,
    allowed: u64,
)
    requires
        promote::promotion(c, options, limits) == Err::<
            (ManifestPromotionReport, ContainerView),
            ManifestPromotionError,
        >(ManifestPromotionError::RollbackLimit { needed, allowed }),
    ensures
        ({
            let commits = chain::retained_commits(c.members);
            let to = (commits.last() - needed) as u64;
            &&& allowed == options.max_rollback_commits
            &&& needed > allowed
            &&& needed <= commits.last()
            &&& commits.contains(to)
            &&& promote::usable(c.members, limits, to)
            &&& forall|j: int|
                0 <= j < commits.len() && #[trigger] commits[j] > to ==> promote_laws::damaged(
                    c.members,
                    limits,
                    commits[j],
                )
        }),
{
    let ms = c.members;
    let commits = chain::retained_commits(ms);
    lemma_search(ms, limits, commits, commits.len());
    let found = promote::newest_usable(ms, limits, commits, commits.len());
    assert(found is Ok && found->Ok_0 is Some && allowed == options.max_rollback_commits && needed
        > allowed && needed == (commits.last() - commits[(found->Ok_0)->0 as int]) as u64) by {
        lemma_no_history_answer(ms, commits, commits.len());
        reveal(promote::promotion);
    }
    let i = (found->Ok_0)->0;
    let commit = commits[i as int];
    chain::lemma_retained_among(ms, ms.len());
    assert(commits.contains(commit));
    if i < commits.len() - 1 {
        assert(commits[i as int] <= commits[commits.len() - 1]);
    }
    assert(commits.last() - needed == commit);
    assert forall|j: int| 0 <= j < commits.len() && #[trigger] commits[j] > commit implies
        promote_laws::damaged(ms, limits, commits[j]) by {
        if j < i {
            assert(commits[j] <= commits[i as int]);
        }
    }
}

/// Only a store that needs it is promoted; the container's state number grows by one, and what is
/// reported of the revision is what its verification counted.
#[verifier::spinoff_prover]
#[verifier::rlimit(40)]
pub proof fn lemma_promoted(
    c: ContainerView,
    options: ManifestPromotionOptions,
    limits: ReadLimits,
)
    requires
        promote::promotion(c, options, limits) is Ok,
    ensures
        ({
            let (report, after) = promote::promotion(c, options, limits)->Ok_0;
            &&& chain::authority_of(c.members) is None || chain::chain_fault(c, true) is Some
            &&& after.seq == c.seq + 1
            &&& artifact::candidate(
                c.members,
                chain::revision(c.members, report.commit)->Ok_0.1,
                limits,
            ) is Ok
            &&& report.candidate == artifact::candidate(
                c.members,
                chain::revision(c.members, report.commit)->Ok_0.1,
                limits,
            )->Ok_0
        }),
{
    let commits = chain::retained_commits(c.members);
    lemma_search(c.members, limits, commits, commits.len());
    reveal(promote::promotion);
    reveal(promote::usable);
}

/// A store is refused as healthy exactly where its current manifest reads and its history holds,
/// every part of it opened. A current manifest that is too long is refused before that.
#[verifier::spinoff_prover]
#[verifier::rlimit(40)]
pub proof fn lemma_healthy_exactly(
    c: ContainerView,
    options: ManifestPromotionOptions,
    limits: ReadLimits,
)
    ensures
        promote::promotion(c, options, limits) == Err::<
            (ManifestPromotionReport, ContainerView),
            ManifestPromotionError,
        >(ManifestPromotionError::Healthy) <==> chain::authority_of(c.members) is Some
            && chain::chain_fault(c, true) is None,
        chain::current_of(c.members) matches Some(Err(ManifestError::MemberTooLarge { bytes }))
            ==> promote::promotion(c, options, limits) == Err::<
            (ManifestPromotionReport, ContainerView),
            ManifestPromotionError,
        >(ManifestPromotionError::TooLarge { bytes }),
{
    let commits = chain::retained_commits(c.members);
    lemma_no_history_answer(c.members, commits, commits.len());
    reveal(promote::promotion);
}

/// A read ceiling, and nothing else, keeps a revision from being judged: its fold has more blocks
/// than a reader may enumerate, or a block directory longer than a reader may read.
pub proof fn lemma_ceilings(ms: Seq<MemberView>, limits: ReadLimits, commit: u64)
    ensures
        promote::ceiling(ms, limits, commit) is Some <==> chain::revision(ms, commit) is Ok && (
        artifact::candidate(ms, chain::revision(ms, commit)->Ok_0.1, limits) matches Err(
            CandidateError::Fold { error },
        ) && (error is Sidecar || error is TooManyBlocks)),
        promote::usable(ms, limits, commit) <==> chain::revision(ms, commit) is Ok
            && artifact::candidate(ms, chain::revision(ms, commit)->Ok_0.1, limits) is Ok,
{
    reveal(promote::ceiling);
    reveal(promote::usable);
}

/// Whether a revision reads.
pub open spec fn reads(ms: Seq<MemberView>, commit: u64) -> bool {
    chain::revision(ms, commit) is Ok
}

proof fn lemma_first_generation(ms: Seq<MemberView>, commits: Seq<u64>, n: nat)
    requires
        n <= commits.len(),
        promote::history_fault(ms, commits, n) is None,
    ensures
        match promote::first_generation(ms, commits, n) {
            Some(g) => forall|i: int|
                0 <= i < n && reads(ms, #[trigger] commits[i]) ==> chain::revision(
                    ms,
                    commits[i],
                )->Ok_0.1.fold_gen == g && chain::revision(ms, commits[i])->Ok_0.1.commit
                    == commits[i],
            None => forall|i: int| 0 <= i < n ==> !reads(ms, #[trigger] commits[i]),
        },
    decreases n,
{
    if n > 0 {
        lemma_first_generation(ms, commits, (n - 1) as nat);
    }
}

/// A promotion goes on only where the retained revisions that read are one history: each is the
/// revision its name says, and all are of one fold generation.
pub proof fn lemma_promotion_one_history(
    c: ContainerView,
    options: ManifestPromotionOptions,
    limits: ReadLimits,
    i: int,
    j: int,
)
    requires
        promote::promotion(c, options, limits) is Ok,
        0 <= i < chain::retained_commits(c.members).len(),
        0 <= j < chain::retained_commits(c.members).len(),
        reads(c.members, chain::retained_commits(c.members)[i]),
        reads(c.members, chain::retained_commits(c.members)[j]),
    ensures
        ({
            let ms = c.members;
            let commits = chain::retained_commits(ms);
            let (a, b) = (
                chain::revision(ms, commits[i])->Ok_0.1,
                chain::revision(ms, commits[j])->Ok_0.1,
            );
            a.fold_gen == b.fold_gen && a.commit == commits[i] && b.commit == commits[j]
        }),
{
    reveal(promote::promotion);
    let commits = chain::retained_commits(c.members);
    lemma_first_generation(c.members, commits, commits.len());
    assert(reads(c.members, commits[i]) && reads(c.members, commits[j]));
}

/// A store of a reserved name is promoted never, and any other as if the name did not matter.
pub proof fn lemma_promotion_named(
    name: Seq<u8>,
    c: ContainerView,
    options: ManifestPromotionOptions,
    limits: ReadLimits,
)
    ensures
        debris::reserved(name) ==> promote::named_promotion(name, c, options, limits) == Err::<
            (ManifestPromotionReport, ContainerView),
            ManifestPromotionError,
        >(ManifestPromotionError::Reserved),
        !debris::reserved(name) ==> promote::named_promotion(name, c, options, limits)
            == promote::promotion(c, options, limits),
{
}

// ---------------------------------------------------------------------------------------------
// Backups.
// ---------------------------------------------------------------------------------------------
/// A restore succeeds exactly where neither name is reserved, nothing cancels it, nothing has the
/// destination's name, and the backup verifies whole; it then reports what the verification counted.
pub proof fn lemma_restore(
    src: Seq<u8>,
    dst: Seq<u8>,
    source: ContainerView,
    held: Option<ContainerView>,
    limits: ReadLimits,
    control: RestoreControl,
)
    ensures
        backup::restored(src, dst, source, held, limits, control) is Ok <==> {
            &&& !debris::reserved(src)
            &&& !debris::reserved(dst)
            &&& !control.at_start
            &&& !control.at_installation
            &&& held is None
            &&& artifact::artifact(source, limits) is Ok
        },
        backup::restored(src, dst, source, held, limits, control) matches Ok(stats) ==> {
            let report = artifact::artifact(source, limits)->Ok_0;
            stats.members == report.members && stats.bytes == report.bytes && stats.commit
                == report.commit
        },
{
}

/// A store is backed up exactly where its writer is usable, nothing has the destination's name,
/// nothing is staged, the container holds all of the revision, and the copy verifies whole.
pub proof fn lemma_backup_taken(s: StoreView, c: ContainerView, occupied: bool)
    ensures
        backup::store_backup_fault(s, c, occupied) is None <==> {
            &&& !s.requires_reopen
            &&& !occupied
            &&& s.mem.len() == 0
            &&& backup::lost(c.members, s.manifest) is None
            &&& artifact::artifact(backup::copied(c, s.manifest), s.read_limits) is Ok
        },
{
}

// ---------------------------------------------------------------------------------------------
// Arrival.
// ---------------------------------------------------------------------------------------------
/// What is done at a name: a store that is there is opened; where only its anchor is, it is brought
/// back; and one is created only where neither is there and nothing beside the name refuses it. A
/// reserved name and a directory are refused first.
pub proof fn lemma_arrival(
    store: Seq<u8>,
    found: Found,
    listing: Seq<debris::SiblingView>,
    limits: ReadLimits,
)
    ensures
        ({
            let r = arrival::arrival(store, found, listing, limits);
            let clear = !debris::reserved(store) && !found.directory;
            &&& r == Ok::<Arrival, ArrivalError>(Arrival::Open) <==> clear && found.store
            &&& r == Ok::<Arrival, ArrivalError>(Arrival::Restore) <==> clear && !found.store
                && found.anchor
            &&& r == Ok::<Arrival, ArrivalError>(Arrival::Create) <==> clear && !found.store
                && !found.anchor && listing.len() <= limits.max_directory_entries
                && debris::refusing_among(store, false, false, listing, listing.len()).len() == 0
            &&& debris::reserved(store) ==> r == Err::<Arrival, ArrivalError>(
                ArrivalError::Reserved,
            )
        }),
{
}

// ---------------------------------------------------------------------------------------------
// The log.
// ---------------------------------------------------------------------------------------------
/// Frames are refused exactly where there would be more than a reader admits.
pub proof fn lemma_frames_refused(count: nat, additional: nat, limits: ReadLimits)
    ensures
        wal::frames_refusal(count, additional, limits) is None <==> count + additional
            <= limits.max_wal_frames,
        limits.max_wal_frames < count + additional <= u64::MAX ==> wal::frames_refusal(
            count,
            additional,
            limits,
        ) == Some(
            WalError::Admission(
                ReadAdmissionError::TooManyWalFrames {
                    actual: (count + additional) as u64,
                    allowed: limits.max_wal_frames,
                },
            ),
        ),
{
}

/// A mutation is refused before anything changes exactly where the writer must be opened again, the
/// mutation is not admitted, no sequence is left, or the log would have more frames than a reader
/// admits.
pub proof fn lemma_entry_refused(s: StoreView, fault: Option<WriteFault>, frames: nat)
    ensures
        engine::entry_refusal(s, fault, frames) is None <==> {
            &&& !s.requires_reopen
            &&& fault is None
            &&& s.manifest.next_seq < u64::MAX
            &&& s.wal.frames() + frames <= s.wal.limits().max_wal_frames
        },
        s.requires_reopen ==> engine::entry_refusal(s, fault, frames) == Some(
            StoreFault::RequiresReopen,
        ),
        !s.requires_reopen && fault is Some ==> engine::entry_refusal(s, fault, frames) == Some(
            StoreFault::Write(fault->0),
        ),
{
}

/// What a batch stages weighs as much as its mutations together, up to the largest count: each never
/// makes the staged weight less.
pub proof fn lemma_weighed(mem_bytes: usize, members: Seq<BatchMember>, n: nat)
    requires
        n <= members.len(),
    ensures
        batch_apply::weighed(mem_bytes, members, n) == sum_laws::held_at(
            mem_bytes as nat + sum_laws::sum(
                n,
                |i: int|
                    if members[i].2 {
                        encode_utf8(members[i].0.id).len() + 32
                    } else {
                        engine::record_weight(members[i].0)
                    },
            ),
            usize::MAX as nat,
        ),
    decreases n,
{
    let each = |i: int|
        if members[i].2 {
            encode_utf8(members[i].0.id).len() + 32
        } else {
            engine::record_weight(members[i].0)
        };
    if n > 0 {
        lemma_weighed(mem_bytes, members, (n - 1) as nat);
        sum_laws::lemma_sum((n - 1) as nat, each);
    } else {
        sum_laws::lemma_sum(0, each);
    }
}

/// As many revisions are retained after one more as before and one, up to as many as are kept.
pub proof fn lemma_one_more(n: usize)
    ensures
        n + 1 <= MANIFEST_RETAIN ==> publish::one_more_retained(n) == n + 1,
        n + 1 > MANIFEST_RETAIN ==> publish::one_more_retained(n) == MANIFEST_RETAIN,
{
}

// ---------------------------------------------------------------------------------------------
// Punching.
// ---------------------------------------------------------------------------------------------
/// A declaration that was not selected changes nothing; one that was gives up the blocks its
/// revision names and no others, and leaves every part, every staged row and every byte as it was.
pub proof fn lemma_declared(
    s: StoreView,
    t: StoreView,
    m: ManifestView,
    outcome: CommitOutcome,
    r: Result<(), PublishError>,
)
    requires
        punch::declare_outcome(s, t, m, outcome, r),
        !s.requires_reopen,
    ensures
        r is Ok <==> outcome == CommitOutcome::Committed,
        outcome == CommitOutcome::NotSelected ==> t == s,
        outcome != CommitOutcome::NotSelected ==> {
            &&& t.manifest == m
            &&& t.writer.fold.punched == m.punched
            &&& t.writer.fold.blocks == s.writer.fold.blocks
            &&& t.writer.fold.segments == s.writer.fold.segments
            &&& t.parts == s.parts
            &&& t.mem == s.mem
            &&& t.wal == s.wal
            &&& t.unsynced <==> outcome == CommitOutcome::SelectedUnsynced
        },
{
}

// ---------------------------------------------------------------------------------------------
// Closing.
// ---------------------------------------------------------------------------------------------
/// A log is removed only where nothing is staged, nothing selected is still to be acknowledged, and
/// the log holds nothing: a close loses nothing.
pub proof fn lemma_close(s: StoreView)
    ensures
        lifecycle::close_step(s) == CloseStep::RemoveLog <==> s.mem.len() == 0 && !s.unsynced
            && s.wal.frames() == 0,
        lifecycle::close_step(s) == CloseStep::CutLog <==> s.mem.len() == 0 && !s.unsynced
            && s.wal.frames() > 0,
        s.mem.len() > 0 <==> lifecycle::close_step(s) == CloseStep::Publish,
        lifecycle::close_step(s) == CloseStep::Acknowledge <==> s.mem.len() == 0 && s.unsynced,
{
}

/// A store that verifies as an artifact verifies as it stands, with the same evidence.
pub proof fn lemma_verified(c: ContainerView, limits: ReadLimits)
    requires
        artifact::artifact(c, limits) is Ok,
    ensures
        lifecycle::verified(c, limits) == Ok::<artifact::StoreVerification, ArtifactError>(
            artifact::artifact(c, limits)->Ok_0.store,
        ),
{
}

// ---------------------------------------------------------------------------------------------
// Budgets and names.
// ---------------------------------------------------------------------------------------------
/// A budget is unusable exactly where it allows no run of two parts whatever they hold.
pub proof fn lemma_budget(b: CompactionBudget)
    ensures
        compact::budget_fault(b) is None <==> b.max_input_parts >= 2 && b.max_input_rows > 0
            && b.max_input_bytes > 0,
{
}

/// What a refused record is told first: of its id, then of its attributes' names, and only where all
/// of it is usable of its size.
pub proof fn lemma_record_refused(
    id: Seq<char>,
    contents: Seq<SpansView>,
    attrs: Seq<(Seq<char>, AttrView)>,
    limits: WriteLimits,
    r: ReadLimits,
    item: Option<usize>,
    lengths_first: bool,
)
    ensures
        ({
            let fault = admission::record_fault(
                id,
                contents,
                attrs,
                limits,
                r,
                item,
                lengths_first,
            );
            let len = encode_utf8(id).len();
            let size = admission::record_size(id, contents, attrs);
            &&& id.len() == 0 ==> fault == Some(
                WriteFault::Admission(
                    RefusalView::EmptyIdentifier { kind: IdentifierKind::RecordId, item },
                ),
            )
            &&& id.len() > 0 && len > limits.max_identifier_bytes ==> fault == Some(
                WriteFault::Admission(
                    RefusalView::IdentifierTooLong {
                        kind: IdentifierKind::RecordId,
                        item,
                        actual: len,
                        allowed: limits.max_identifier_bytes,
                    },
                ),
            )
            &&& id.len() > 0 && len <= limits.max_identifier_bytes && attrs.len() > 0
                && attrs[0].0.len() == 0 ==> fault == Some(
                WriteFault::Admission(
                    RefusalView::EmptyIdentifier { kind: IdentifierKind::AttributeName, item },
                ),
            )
            &&& (fault matches Some(WriteFault::Admission(e)) && e is RecordTooLarge) ==> {
                let held = if size > u64::MAX {
                    u64::MAX as nat
                } else {
                    size
                };
                &&& held > limits.max_record_bytes
                &&& fault == Some(
                    WriteFault::Admission(
                        RefusalView::RecordTooLarge {
                            item,
                            actual: held as u64,
                            allowed: limits.max_record_bytes,
                        },
                    ),
                )
            }
        }),
{
    lemma_attrs_told(attrs, limits, item);
    lemma_inputs_told(contents, limits, r, item, lengths_first);
}

proof fn lemma_attrs_told(
    attrs: Seq<(Seq<char>, AttrView)>,
    limits: WriteLimits,
    item: Option<usize>,
)
    ensures
        admission::attrs_fault(attrs, limits, item) matches Some(e) ==> !(e is RecordTooLarge),
    decreases attrs.len(),
{
    if attrs.len() > 0 {
        lemma_attrs_told(attrs.drop_first(), limits, item);
    }
}

proof fn lemma_spans_told(spans: Seq<admission::SpanView>, r: ReadLimits)
    ensures
        admission::spans_fault(spans, r) matches Some(e) ==> !(e is Admission),
    decreases spans.len(),
{
    if spans.len() > 0 {
        lemma_spans_told(spans.drop_last(), r);
    }
}

proof fn lemma_inputs_told(
    contents: Seq<SpansView>,
    limits: WriteLimits,
    r: ReadLimits,
    item: Option<usize>,
    lengths_first: bool,
)
    ensures
        admission::inputs_fault(contents, limits, r, item, lengths_first) matches Some(
            WriteFault::Admission(e),
        ) ==> !(e is RecordTooLarge),
    decreases contents.len(),
{
    if contents.len() > 0 {
        lemma_inputs_told(contents.drop_last(), limits, r, item, lengths_first);
        lemma_spans_told(contents.last().spans, r);
    }
}

} // verus!
