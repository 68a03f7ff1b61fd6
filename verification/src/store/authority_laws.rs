//! Laws of what authority may say: which manifests are valid, which folds open, and which rows a merge
//! leaves.

use crate::bytes;
use crate::container;
use crate::container::MemberView;
use crate::hash;
use crate::part;
use crate::part::{PartView, RowView};
use crate::read_limits::ReadLimits;
use crate::store::chain;
use crate::store::commit;
use crate::store::commit_laws;
use crate::store::engine::StoreView;
use crate::store::manifest;
use crate::store::manifest::ManifestView;
use crate::store::names;
use crate::store::namespace;
use crate::store::open;
use crate::store::open::{FoldRole, TailRule};
use crate::store::publish;
use crate::text;
use vstd::prelude::*;
use vstd::utf8::*;

verus! {

// ---------------------------------------------------------------------------------------------
// Manifests.
// ---------------------------------------------------------------------------------------------
/// Whether the reference at `i` goes with those before it: it has a name that its interval and the
/// generation allow and that no earlier one has, its interval is not inverted and begins where the
/// one before it ended, and its digest is one.
pub open spec fn part_follows(m: ManifestView, i: int) -> bool {
    let p = m.parts[i];
    &&& names::part_member_allowed(encode_utf8(p.member), p.seq_lo, p.seq_hi, m.fold_gen)
    &&& forall|j: int| 0 <= j < i ==> (#[trigger] m.parts[j]).member != p.member
    &&& p.seq_lo <= p.seq_hi
    &&& i == 0 ==> p.seq_lo == 1
    &&& i > 0 ==> p.seq_lo == m.parts[i - 1].seq_hi + 1
    &&& names::hex_digest(encode_utf8(p.b3))
}

proof fn lemma_parts_valid(m: ManifestView, n: nat)
    requires
        n <= m.parts.len(),
    ensures
        manifest::parts_fault(m.parts, m.fold_gen, n) is None <==> forall|i: int|
            0 <= i < n ==> part_follows(m, i),
    decreases n,
{
    if n > 0 {
        lemma_parts_valid(m, (n - 1) as nat);
        let i = n - 1;
        assert(manifest::part_fault(m.parts, m.fold_gen, i) is None <==> part_follows(m, i));
    }
}

/// A manifest is valid exactly where it is of this format, has a number and, but for the first, a
/// predecessor, its fold's end is one that a segment can have, its parts' intervals begin at one and
/// touch and end at its cursor, its digests are digests, and what it gives up is in order.
pub proof fn lemma_manifest_valid(m: ManifestView)
    ensures
        manifest::manifest_fault(m) is None <==> {
            &&& m.draft_epoch == manifest::DRAFT_FORMAT_EPOCH
            &&& m.commit > 0
            &&& m.prev is None <==> m.commit == 1
            &&& m.fold_gen <= names::MAX_FOLD_GENERATION
            &&& m.fold_seg <= names::MAX_SEGMENT_NUMBER
            &&& m.fold_off >= names::SEG_HDR_LEN
            &&& forall|i: int| 0 <= i < m.parts.len() ==> part_follows(m, i)
            &&& m.next_seq == (if m.parts.len() == 0 {
                0
            } else {
                m.parts.last().seq_hi
            })
            &&& m.prev is Some ==> names::hex_digest(encode_utf8(m.prev->0))
            &&& forall|i: int|
                0 <= i < m.punched.len() ==> (#[trigger] m.punched[i]).0 <= m.punched[i].1
            &&& forall|i: int, j: int|
                0 <= i < j < m.punched.len() ==> (#[trigger] m.punched[i]).1 < (
                #[trigger] m.punched[j]).0
        },
{
    lemma_parts_valid(m, m.parts.len());
}

/// The window of revisions: one more than the window is wide behind the newest has expired, and one
/// inside it has not.
pub proof fn lemma_window(commit: u64, old: u64)
    requires
        0 < old <= commit,
    ensures
        old <= manifest::oldest_expired(commit) <==> commit - old >= manifest::MANIFEST_RETAIN,
{
}

/// A next revision has the next number and names the bytes it replaces.
pub proof fn lemma_successor(m: ManifestView, next: ManifestView, predecessor: Option<Seq<u8>>)
    requires
        manifest::succeeding(m, next, predecessor),
    ensures
        next.commit == m.commit + 1,
        predecessor matches Some(b) ==> next.prev is Some && encode_utf8(next.prev->0)
            == manifest::link(b),
        predecessor is None ==> next.prev is None,
{
}

// ---------------------------------------------------------------------------------------------
// Folds.
// ---------------------------------------------------------------------------------------------
proof fn lemma_fold_each(
    ms: Seq<MemberView>,
    m: ManifestView,
    rule: TailRule,
    limits: ReadLimits,
    n: nat,
    i: int,
)
    requires
        0 <= i < n,
        open::fold_members_fault(ms, m.fold_gen, manifest::tail_of(m), rule, limits, n) is None,
    ensures
        open::fold_member_fault(ms, m.fold_gen, manifest::tail_of(m), rule, limits, i) is None,
    decreases n,
{
    if i < n - 1 {
        lemma_fold_each(ms, m, rule, limits, (n - 1) as nat, i);
    }
}

proof fn lemma_directory_each(ms: Seq<MemberView>, generation: u32, n: nat, i: int)
    requires
        0 <= i < n,
        open::orphan(ms, generation, n) is None,
    ensures
        open::role_of(ms[i].name, generation) matches FoldRole::Sidecar { seg }
            ==> open::has_segment(ms, generation, seg),
    decreases n,
{
    if i < n - 1 {
        lemma_directory_each(ms, generation, (n - 1) as nat, i);
    }
}

/// What a fold that opens holds: nothing below its root is a stranger; a dictionary has the name of
/// its content; a block directory has its segment; and a segment that is read decodes into frames
/// that lie one after another behind its header. Under the exact rule no segment lies behind the
/// fold's end and the last one ends there; under the other the last one reaches at least that far.
pub proof fn lemma_fold_opens(
    ms: Seq<MemberView>,
    m: ManifestView,
    punched: Seq<(u32, u32)>,
    rule: TailRule,
    limits: ReadLimits,
    i: int,
)
    requires
        open::fold_of(ms, m, punched, rule, limits) is Ok,
        0 <= i < ms.len(),
        ms[i].bytes.len() <= u64::MAX,
    ensures
        ({
            let y = ms[i];
            let f = open::fold_of(ms, m, punched, rule, limits)->Ok_0;
            let tail = manifest::tail_of(m);
            &&& f.punched == punched
            &&& f.blocks.len() <= limits.max_fold_blocks
            &&& tail is Some ==> open::has_segment(ms, m.fold_gen, tail->0.seg)
            &&& match open::role_of(y.name, m.fold_gen) {
                FoldRole::Stray => false,
                FoldRole::Dictionary => open::below_root(y.name, m.fold_gen)->0
                    == open::dictionary_file(y.bytes),
                FoldRole::Sidecar { seg } => open::has_segment(ms, m.fold_gen, seg),
                FoldRole::Segment { seg } => {
                    &&& rule == TailRule::Exact ==> tail is Some && seg <= tail->0.seg && (seg
                        == tail->0.seg ==> y.bytes.len() == tail->0.off)
                    &&& rule == TailRule::Cut && tail is Some && seg == tail->0.seg ==> y.bytes.len()
                        >= tail->0.off
                    &&& tail is None || seg <= tail->0.seg ==> y.blocks is Some && forall|b: int|
                        0 <= b < y.blocks->0.len() ==> (#[trigger] y.blocks->0[b]).segment == seg
                            && names::SEG_HDR_LEN < y.blocks->0[b].end <= y.bytes.len()
                },
                FoldRole::Other => true,
            }
        }),
{
    lemma_fold_each(ms, m, rule, limits, ms.len(), i);
    lemma_directory_each(ms, m.fold_gen, ms.len(), i);
}

// ---------------------------------------------------------------------------------------------
// Merges.
// ---------------------------------------------------------------------------------------------
/// A merge of every part leaves no tombstone; a merge of a run leaves as many rows as the run has
/// ids, tombstones among them.
pub proof fn lemma_merge_leaves(parts: Seq<PartView>, lo: int, hi: int)
    requires
        part::parts_sound(parts),
        0 <= lo <= hi <= parts.len(),
    ensures
        ({
            let out = publish::merge_output(parts, lo, hi);
            let rows = publish::merged_rows(parts, lo, hi);
            &&& lo == 0 && hi == parts.len() ==> out == rows.filter(
                |r: RowView| r.record is Some,
            )
            &&& !(lo == 0 && hi == parts.len()) ==> out == rows
        }),
{
    let rows = publish::merged_rows(parts, lo, hi);
    lemma_records_only(rows, rows.len());
    assert(rows.take(rows.len() as int) =~= rows);
}

proof fn lemma_records_only(rows: Seq<RowView>, n: nat)
    requires
        n <= rows.len(),
    ensures
        publish::records_only(rows, n) == rows.take(n as int).filter(
            |r: RowView| r.record is Some,
        ),
    decreases n,
{
    reveal(Seq::filter);
    if n > 0 {
        lemma_records_only(rows, (n - 1) as nat);
        assert(rows.take(n as int).drop_last() =~= rows.take(n - 1));
        assert(rows.take(n as int).last() == rows[n - 1]);
    } else {
        assert(rows.take(0) =~= Seq::<RowView>::empty());
    }
}

/// A run can be merged exactly where it is two parts at least, and there.
pub proof fn lemma_mergeable(s: StoreView, lo: int, len: int)
    ensures
        publish::mergeable(s, lo, len) <==> 2 <= len && len <= s.parts.len() - lo,
{
}

/// A run is replaced in its place: what came before it and what came after it stay.
pub proof fn lemma_spliced(parts: Seq<PartView>, start: nat, replaces: nat, x: PartView)
    requires
        start + replaces <= parts.len(),
    ensures
        ({
            let out = publish::spliced(parts, start, replaces, x);
            &&& out.len() == parts.len() - replaces + 1
            &&& out[start as int] == x
            &&& forall|i: int| 0 <= i < start ==> out[i] == parts[i]
            &&& forall|i: int|
                start + replaces <= i < parts.len() ==> out[i - replaces + 1] == #[trigger] parts[i]
        }),
{
}

// ---------------------------------------------------------------------------------------------
// Sweeps.
// ---------------------------------------------------------------------------------------------
/// Whether the live revision or one that a container retains meets a condition.
pub open spec fn some_revision(
    ms: Seq<MemberView>,
    live: ManifestView,
    meets: spec_fn(ManifestView) -> bool,
) -> bool {
    meets(live) || exists|c: u64| #[trigger]
        chain::retained_commits(ms).contains(c) && meets(chain::revision(ms, c)->Ok_0.1)
}

/// What a sweep leaves, member by member: a part exactly where the live revision or a retained one
/// names it, a member of a fold exactly where one of them is of its generation, and everything else.
pub proof fn lemma_swept(ms: Seq<MemberView>, live: ManifestView, y: MemberView)
    requires
        container::names_ascending(ms),
    ensures
        commit::swept(ms, live).contains(y) <==> ms.contains(y) && {
            let b = encode_utf8(y.name);
            if bytes::starts_with(b, encode_utf8("part-"@)) && bytes::ends_with(
                b,
                encode_utf8(".part"@),
            ) {
                some_revision(
                    ms,
                    live,
                    |m: ManifestView|
                        exists|j: int|
                            0 <= j < m.parts.len() && (#[trigger] m.parts[j]).member == y.name,
                )
            } else {
                match names::fold_generation(b) {
                    Some(g) => some_revision(ms, live, |m: ManifestView| m.fold_gen == g),
                    None => true,
                }
            }
        },
{
    commit_laws::lemma_swept_kept(ms, live, ms.len());
    commit_laws::lemma_kept(ms, |name: Seq<char>| commit::needed(ms, live, name));
    let b = encode_utf8(y.name);
    let commits = chain::retained_commits(ms);
    let n = commits.len() as int;
    let names_it = |m: ManifestView|
        exists|j: int| 0 <= j < m.parts.len() && (#[trigger] m.parts[j]).member == y.name;
    if chain::named_before(ms, commits, n, y.name) {
        let k = choose|k: int|
            0 <= k < n && namespace::names_part(
                chain::revision(ms, #[trigger] commits[k])->Ok_0.1,
                y.name,
            );
        assert(commits.contains(commits[k]));
        assert(names_it(chain::revision(ms, commits[k])->Ok_0.1));
    }
    if exists|c: u64| #[trigger] commits.contains(c) && names_it(chain::revision(ms, c)->Ok_0.1) {
        let c = choose|c: u64| #[trigger]
            commits.contains(c) && names_it(chain::revision(ms, c)->Ok_0.1);
        let k = choose|k: int| 0 <= k < n && commits[k] == c;
        assert(namespace::names_part(chain::revision(ms, commits[k])->Ok_0.1, y.name));
        assert(chain::named_before(ms, commits, n, y.name));
    }
    if let Some(g) = names::fold_generation(b) {
        let of_it = |m: ManifestView| m.fold_gen == g;
        if commit::generation_before(ms, commits, n, g) {
            let k = choose|k: int|
                0 <= k < n && chain::revision(ms, #[trigger] commits[k])->Ok_0.1.fold_gen == g;
            assert(commits.contains(commits[k]));
            assert(of_it(chain::revision(ms, commits[k])->Ok_0.1));
        }
        if exists|c: u64| #[trigger] commits.contains(c) && of_it(chain::revision(ms, c)->Ok_0.1) {
            let c = choose|c: u64| #[trigger]
                commits.contains(c) && of_it(chain::revision(ms, c)->Ok_0.1);
            let k = choose|k: int| 0 <= k < n && commits[k] == c;
            assert(chain::revision(ms, commits[k])->Ok_0.1.fold_gen == g);
            assert(commit::generation_before(ms, commits, n, g));
        }
    }
}

// ---------------------------------------------------------------------------------------------
// Links.
// ---------------------------------------------------------------------------------------------
/// Hexadecimal digits tell bytes apart.
pub proof fn lemma_hex_tells(a: Seq<u8>, b: Seq<u8>)
    requires
        text::hex(a) == text::hex(b),
    ensures
        a == b,
{
    let (x, y) = (text::hex(a), text::hex(b));
    assert(x.len() == 2 * a.len() && y.len() == 2 * b.len());
    assert forall|i: int| 0 <= i < a.len() implies a[i] == b[i] by {
        assert(x[2 * i] == y[2 * i]);
        assert(x[2 * i + 1] == y[2 * i + 1]);
        assert((2 * i) / 2 == i && (2 * i) % 2 == 0);
        assert((2 * i + 1) / 2 == i && (2 * i + 1) % 2 == 1);
        let (p, q) = (a[i] as int, b[i] as int);
        assert(p == 16 * (p / 16) + p % 16 && q == 16 * (q / 16) + q % 16);
        assert(0 <= p / 16 < 16 && 0 <= q / 16 < 16);
    }
    assert(a =~= b);
}

/// A link names one digest: what has the same link has the same digest, and a link is two
/// lower-case hexadecimal digits for each byte of it.
pub proof fn lemma_link_tells(a: Seq<u8>, b: Seq<u8>)
    ensures
        manifest::link(a) == manifest::link(b) <==> hash::blake3_digest(a) == hash::blake3_digest(
            b,
        ),
        manifest::link(a).len() == 2 * hash::blake3_digest(a).len(),
        forall|i: int|
            0 <= i < manifest::link(a).len() ==> 48 <= #[trigger] manifest::link(a)[i] <= 57 || 97
                <= manifest::link(a)[i] <= 102,
{
    if manifest::link(a) == manifest::link(b) {
        lemma_hex_tells(hash::blake3_digest(a), hash::blake3_digest(b));
    }
    let d = hash::blake3_digest(a);
    let x = manifest::link(a);
    assert forall|i: int| 0 <= i < x.len() implies 48 <= #[trigger] x[i] <= 57 || 97 <= x[i]
        <= 102 by {
        let p = d[i / 2] as int;
        assert(0 <= p / 16 < 16 && 0 <= p % 16 < 16);
    }
}

/// Retained revisions have no fault exactly where each of them reads.
pub proof fn lemma_all_read(ms: Seq<MemberView>, commits: Seq<u64>, n: nat)
    requires
        n <= commits.len(),
    ensures
        commit::retained_fault(ms, commits, n) is None <==> forall|i: int|
            0 <= i < n ==> chain::revision(ms, #[trigger] commits[i]) is Ok,
    decreases n,
{
    if n > 0 {
        lemma_all_read(ms, commits, (n - 1) as nat);
    }
}

} // verus!
