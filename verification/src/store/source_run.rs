//! Running a verification unit by unit.

use crate::bytes;
use crate::container;
use crate::container::{Container, ContainerView};
use crate::fold;
use crate::hash;
use crate::part;
use crate::part::{Part, PartView};
use crate::read_limits::{ReadAdmissionError, ReadLimits};
use crate::store::artifact::{FoldScrub, StoreVerification};
use crate::store::audit;
use crate::store::chain;
use crate::store::chain::ChainReport;
use crate::store::checksum;
use crate::store::manifest;
use crate::store::manifest::{ManifestView, PartRef};
use crate::store::namespace;
use crate::store::open;
use crate::store::open::{OpenError, ReadStore, ReadStoreView};
use crate::store::read;
use crate::store::scan;
use crate::store::source;
use crate::store::source::{EnvView, Found, Totals, UnitView, VerifyError, VerifyUnit};
use crate::store::source_laws;
use crate::store::source_plan;
use crate::store::source_plan::RetainedAuthority;
use crate::store::verify::Authority;
use crate::text;
use vstd::prelude::*;
use vstd::utf8::*;

verus! {

/// A verification in progress over one container.
pub struct SourceVerifier {
    pub container: Container,
    pub current: ReadStore,
    pub retained: Vec<RetainedAuthority>,
    /// Every part that some revision names, in order.
    pub names: Vec<String>,
    pub units: Vec<VerifyUnit>,
    pub done: Vec<bool>,
    pub totals: Totals,
    pub chain: Option<ChainReport>,
}

/// What a completed verification established.
#[derive(Clone, Copy, Debug, PartialEq, Eq, Structural)]
pub struct SourceVerification {
    pub members: usize,
    pub member_bytes: u64,
    /// The current revision; zero stands for the origin.
    pub commit: u64,
    pub store: StoreVerification,
}

/// What is verified was opened from the container it is in.
pub open spec fn env_opened(e: EnvView, limits: ReadLimits) -> bool {
    let ms = e.c.members;
    let commits = chain::retained_commits(ms);
    &&& scan::ascending(e.names)
    &&& open::current_view(e.c, limits) == Ok::<ReadStoreView, OpenError>(e.current)
    &&& e.retained.len() == commits.len()
    &&& forall|k: int|
        0 <= k < commits.len() ==> (#[trigger] e.retained[k]).0 == commits[k] && chain::revision(
            ms,
            commits[k],
        ) is Ok && open::retained_view(
            ms,
            chain::revision(ms, commits[k])->Ok_0.1,
            e.current.manifest,
            limits,
        ) == Ok::<ReadStoreView, OpenError>(e.retained[k].1)
    &&& forall|x: Seq<char>| #[trigger] e.names.contains(x) <==> source_plan::named_anywhere(e, x)
}

impl SourceVerifier {
    /// What is verified.
    pub open spec fn env(&self) -> EnvView {
        EnvView {
            c: self.container@,
            current: self.current@,
            retained: source_plan::retained_view(self.retained@),
            names: scan::texts_view(self.names@),
        }
    }

    /// The evidence is that of the units that ran.
    pub open spec fn wf(&self) -> bool {
        let e = self.env();
        let units = source::units_view(self.units@);
        &&& part::parts_sound(self.current@.parts)
        &&& forall|k: int|
            0 <= k < self.retained@.len() ==> part::parts_sound(
                (#[trigger] self.retained@[k]).store@.parts,
            )
        &&& units == source::plan_of(e)
        &&& self.done@.len() == self.units@.len()
        &&& self.totals == source::held(source::found_among(e, units, self.done@, units.len()))
        &&& forall|i: int|
            0 <= i < units.len() && #[trigger] self.done@[i] ==> source::unit_fault(e, units[i])
                is None
        &&& forall|i: int|
            0 <= i < units.len() && #[trigger] self.done@[i] && units[i] is ManifestChain
                ==> self.chain == Some(chain::chain_report(e.c, false))
    }
}

/// What opening a verification gives.
pub open spec fn open_fault(c: ContainerView, limits: ReadLimits) -> Option<VerifyError> {
    let commits = chain::retained_commits(c.members);
    if c.members.len() > limits.max_directory_entries {
        Some(
            VerifyError::Directory {
                error: ReadAdmissionError::TooManyDirectoryEntries {
                    actual: c.members.len() as u64,
                    allowed: limits.max_directory_entries,
                },
            },
        )
    } else {
        match open::current_view(c, limits) {
            Err(error) => Some(VerifyError::Open { error }),
            Ok(s) => match checksum::punched_fault(c.members, limits) {
                Some(error) => Some(VerifyError::Punched { error }),
                None => retained_open_fault(c, s.manifest, limits, commits, commits.len()),
            },
        }
    }
}

/// Why one of the first `n` retained revisions does not open.
pub open spec fn retained_open_fault(
    c: ContainerView,
    current: ManifestView,
    limits: ReadLimits,
    commits: Seq<u64>,
    n: nat,
) -> Option<VerifyError>
    decreases n,
{
    if n == 0 {
        None
    } else {
        match retained_open_fault(c, current, limits, commits, (n - 1) as nat) {
            Some(e) => Some(e),
            None => match chain::revision(c.members, commits[n - 1]) {
                Err(error) => Some(
                    VerifyError::RetainedOpen {
                        commit: commits[n - 1],
                        error: OpenError::Retained { error },
                    },
                ),
                Ok((_, m)) => match open::retained_view(c.members, m, current, limits) {
                    Err(error) => Some(
                        VerifyError::RetainedOpen { commit: commits[n - 1], error },
                    ),
                    Ok(_) => None,
                },
            },
        }
    }
}

proof fn lemma_retained_open_prefix(
    c: ContainerView,
    current: ManifestView,
    limits: ReadLimits,
    commits: Seq<u64>,
    k: nat,
    n: nat,
)
    requires
        k <= n,
        retained_open_fault(c, current, limits, commits, k) is Some,
    ensures
        retained_open_fault(c, current, limits, commits, n) == retained_open_fault(
            c,
            current,
            limits,
            commits,
            k,
        ),
    decreases n,
{
    if k < n {
        lemma_retained_open_prefix(c, current, limits, commits, k, (n - 1) as nat);
    }
}

#[verifier::spinoff_prover]
fn open_retained(c: &Container, current: &ReadStore, limits: ReadLimits) -> (r: Result<
    Vec<RetainedAuthority>,
    VerifyError,
>)
    ensures
        ({
            let ms = c@.members;
            let commits = chain::retained_commits(ms);
            let fault = retained_open_fault(
                c@,
                current@.manifest,
                limits,
                commits,
                commits.len(),
            );
            match r {
                Ok(v) => {
                    &&& fault is None
                    &&& v@.len() == commits.len()
                    &&& forall|k: int|
                        0 <= k < v@.len() ==> part::parts_sound((#[trigger] v@[k]).store@.parts)
                    &&& forall|k: int|
                        0 <= k < v@.len() ==> (#[trigger] v@[k]).commit == commits[k]
                            && chain::revision(ms, commits[k]) is Ok && open::retained_view(
                            ms,
                            chain::revision(ms, commits[k])->Ok_0.1,
                            current@.manifest,
                            limits,
                        ) == Ok::<ReadStoreView, OpenError>(v@[k].store@)
                },
                Err(e) => fault == Some(e),
            }
        }),
{
    let ghost ms = c@.members;
    let ghost cm = current@.manifest;
    let commits = chain::container_retained_commits(c);
    let mut out: Vec<RetainedAuthority> = Vec::new();
    let mut i: usize = 0;
    while i < commits.len()
        invariant
            ms == c@.members,
            cm == current@.manifest,
            commits@ == chain::retained_commits(ms),
            i <= commits@.len(),
            out@.len() == i,
            retained_open_fault(c@, cm, limits, commits@, i as nat) is None,
            forall|k: int|
                0 <= k < out@.len() ==> part::parts_sound((#[trigger] out@[k]).store@.parts),
            forall|k: int|
                0 <= k < out@.len() ==> (#[trigger] out@[k]).commit == commits@[k]
                    && chain::revision(ms, commits@[k]) is Ok && open::retained_view(
                    ms,
                    chain::revision(ms, commits@[k])->Ok_0.1,
                    cm,
                    limits,
                ) == Ok::<ReadStoreView, OpenError>(out@[k].store@),
        decreases commits.len() - i,
    {
        let commit: u64 = commits[i];
        let m = match chain::read_revision(c, commit) {
            Ok((_, m)) => m,
            Err(error) => {
                proof {
                    lemma_retained_open_prefix(
                        c@,
                        cm,
                        limits,
                        commits@,
                        (i + 1) as nat,
                        commits@.len(),
                    );
                }
                return Err(
                    VerifyError::RetainedOpen { commit, error: OpenError::Retained { error } },
                );
            },
        };
        match open::open_retained_from_container(c, m, &current.manifest, limits) {
            Ok(store) => {
                out.push(RetainedAuthority { commit, store });
            },
            Err(error) => {
                proof {
                    lemma_retained_open_prefix(
                        c@,
                        cm,
                        limits,
                        commits@,
                        (i + 1) as nat,
                        commits@.len(),
                    );
                }
                return Err(VerifyError::RetainedOpen { commit, error });
            },
        }
        i = i + 1;
    }
    Ok(out)
}

proof fn lemma_none_done(e: EnvView, units: Seq<UnitView>, done: Seq<bool>, n: nat)
    requires
        n <= done.len(),
        forall|i: int| 0 <= i < n ==> !#[trigger] done[i],
    ensures
        source::found_among(e, units, done, n) == source::nothing(),
    decreases n,
{
    if n > 0 {
        lemma_none_done(e, units, done, (n - 1) as nat);
    }
}

/// One unit more adds what it found.
proof fn lemma_one_done(e: EnvView, units: Seq<UnitView>, done: Seq<bool>, k: int, n: nat)
    requires
        0 <= k < done.len(),
        n <= done.len(),
        !done[k],
    ensures
        source::found_among(e, units, done.update(k, true), n) == if k < n {
            source::joined(
                source::found_among(e, units, done, n),
                source::unit_found(e, units[k]),
            )
        } else {
            source::found_among(e, units, done, n)
        },
    decreases n,
{
    if n > 0 {
        lemma_one_done(e, units, done, k, (n - 1) as nat);
        let before = source::found_among(e, units, done, (n - 1) as nat);
        assert(source::joined(
            source::joined(before, source::unit_found(e, units[k])),
            source::unit_found(e, units[n - 1]),
        ) == source::joined(
            source::joined(before, source::unit_found(e, units[n - 1])),
            source::unit_found(e, units[k]),
        ));
    }
}

fn drifts(refs: &Vec<PartRef>, member: &str, link: &Vec<u8>) -> (r: bool)
    ensures
        r == source::refs_drift(manifest::refs_view(refs@), member@, link@, refs@.len()),
{
    let ghost rv = manifest::refs_view(refs@);
    let mut found = false;
    let mut i: usize = 0;
    while i < refs.len()
        invariant
            rv == manifest::refs_view(refs@),
            i <= refs@.len(),
            found == source::refs_drift(rv, member@, link@, i as nat),
        decreases refs.len() - i,
    {
        assert(rv[i as int] == refs@[i as int]@);
        if bytes::str_eq(refs[i].member.as_str(), member) && !bytes::bytes_eq(
            refs[i].b3.as_str().as_bytes(),
            link.as_slice(),
        ) {
            found = true;
        }
        i = i + 1;
    }
    found
}

fn count_named(refs: &Vec<PartRef>, member: &str, from: usize, Ghost(n): Ghost<nat>) -> (r: usize)
    requires
        from == audit::fit(n),
    ensures
        r == audit::fit(
            n + source::refs_named(manifest::refs_view(refs@), member@, refs@.len()),
        ),
{
    let ghost rv = manifest::refs_view(refs@);
    let mut sum: usize = from;
    let mut i: usize = 0;
    while i < refs.len()
        invariant
            rv == manifest::refs_view(refs@),
            i <= refs@.len(),
            sum == audit::fit(n + source::refs_named(rv, member@, i as nat)),
        decreases refs.len() - i,
    {
        assert(rv[i as int] == refs@[i as int]@);
        if bytes::str_eq(refs[i].member.as_str(), member) {
            sum =
            audit::add_fit(sum, 1, Ghost((n + source::refs_named(rv, member@, i as nat)) as nat));
        }
        i = i + 1;
    }
    sum
}

proof fn lemma_drift_prefix(
    retained: Seq<(u64, ReadStoreView)>,
    member: Seq<char>,
    link: Seq<u8>,
    k: nat,
    n: nat,
)
    requires
        k <= n,
        source::retained_drift(retained, member, link, k) is Some,
    ensures
        source::retained_drift(retained, member, link, n) == source::retained_drift(
            retained,
            member,
            link,
            k,
        ),
    decreases n,
{
    if k < n {
        lemma_drift_prefix(retained, member, link, k, (n - 1) as nat);
    }
}

fn find_retained(retained: &Vec<RetainedAuthority>, commit: u64) -> (r: Option<&ReadStore>)
    requires
        forall|k: int|
            0 <= k < retained@.len() ==> part::parts_sound((#[trigger] retained@[k]).store@.parts),
    ensures
        match r {
            Some(s) => source::retained_at(source_plan::retained_view(retained@), commit) == Some(s@)
                && part::parts_sound(s@.parts),
            None => source::retained_at(source_plan::retained_view(retained@), commit) is None,
        },
{
    let ghost all = source_plan::retained_view(retained@);
    let mut i: usize = 0;
    assert(all.skip(0) =~= all);
    while i < retained.len()
        invariant
            forall|k: int|
                0 <= k < retained@.len() ==> part::parts_sound(
                    (#[trigger] retained@[k]).store@.parts,
                ),
            all == source_plan::retained_view(retained@),
            i <= retained@.len(),
            source::retained_at(all, commit) == source::retained_at(all.skip(i as int), commit),
        decreases retained.len() - i,
    {
        assert(all.skip(i as int)[0] == all[i as int]);
        assert(all.skip(i as int).drop_first() =~= all.skip(i + 1));
        if retained[i].commit == commit {
            return Some(&retained[i].store);
        }
        i = i + 1;
    }
    assert(all.skip(i as int).len() == 0);
    None
}

/// Verify the values of some visible rows of a part, and count them.
fn verify_rows(
    s: &ReadStore,
    index: usize,
    rows: &Vec<usize>,
    from: usize,
    to: usize,
    retained: bool,
) -> (r: Result<Totals, VerifyError>)
    requires
        part::parts_sound(s@.parts),
        index < s@.parts.len(),
        from <= to <= rows@.len(),
        rows@ == read::live_rows(s@.parts, index as int, s@.parts[index as int].rows.len()),
        forall|k: int|
            0 <= k < rows@.len() ==> #[trigger] rows@[k] < s@.parts[index as int].rows.len(),
    ensures
        ({
            let window = rows@.subrange(from as int, to as int);
            let n = window.len();
            match r {
                Ok(t) => source::rows_value_fault(s@, index as int, window, retained, n) is None && t
                    == source::held(source::rows_found(s@, index as int, window, n)),
                Err(VerifyError::Value { fault }) => source::rows_value_fault(
                    s@,
                    index as int,
                    window,
                    retained,
                    n,
                ) == Some(fault),
                Err(_) => false,
            }
        }),
{
    let ghost v = s@;
    let ghost window = rows@.subrange(from as int, to as int);
    let mut t = source::no_totals();
    let mut i: usize = from;
    while i < to
        invariant
            part::parts_sound(v.parts),
            v == s@,
            index < v.parts.len(),
            from <= i <= to <= rows@.len(),
            window == rows@.subrange(from as int, to as int),
            rows@ == read::live_rows(v.parts, index as int, v.parts[index as int].rows.len()),
            forall|k: int|
                0 <= k < rows@.len() ==> #[trigger] rows@[k] < v.parts[index as int].rows.len(),
            source::rows_value_fault(v, index as int, window, retained, (i - from) as nat) is None,
            t == source::held(source::rows_found(v, index as int, window, (i - from) as nat)),
        decreases to - i,
    {
        let row: usize = rows[i];
        let ghost k = (i - from) as nat;
        let total: usize = s.parts[index].rows.len();
        assert(v.parts[index as int].rows.len() == total);
        proof {
            assert(window[k as int] == row);
            assert(rows@[i as int] < v.parts[index as int].rows.len());
            lemma_live_row(v.parts, index as int, v.parts[index as int].rows.len(), i as int);
            assert(v.parts[index as int] == s.parts@[index as int]@);
            assert(v.parts[index as int].rows[row as int]
                == s.parts@[index as int].rows@[row as int]@);
        }
        if let Some(record) = &s.parts[index].rows[row].record {
            match audit::verify_record(&s.parts, &s.fold, index, row, record, retained) {
                Err(fault) => {
                    proof {
                        assert(source::rows_value_fault(
                            v,
                            index as int,
                            window,
                            retained,
                            k + 1,
                        ) == Some(fault));
                        lemma_rows_value_prefix(
                            v,
                            index as int,
                            window,
                            retained,
                            k + 1,
                            window.len(),
                        );
                    }
                    return Err(VerifyError::Value { fault });
                },
                Ok(bytes) => {
                    let ghost contents = record@.contents;
                    let one = Totals {
                        digests: 0,
                        sections: 0,
                        segments: 0,
                        blocks: 0,
                        fold_bytes: 0,
                        records: 1,
                        values: record.contents.len(),
                        bytes,
                    };
                    let ghost fb = Found {
                        records: 1,
                        values: contents.len(),
                        bytes: audit::record_bytes(
                            v.parts[index as int],
                            v.fold,
                            contents,
                            contents.len(),
                        ),
                        ..source::nothing()
                    };
                    t =
                    source::join_totals(
                        t,
                        one,
                        Ghost(source::rows_found(v, index as int, window, k)),
                        Ghost(fb),
                    );
                },
            }
        }
        i = i + 1;
    }
    Ok(t)
}

impl SourceVerifier {
    fn find_drift(&self, member: &str, link: &Vec<u8>) -> (r: Option<u64>)
        ensures
            r == source::drift(self.env(), member@, link@),
    {
        let ghost e = self.env();
        if self.retained.len() == 0 {
            return if drifts(&self.current.manifest.parts, member, link) {
                Some(0)
            } else {
                None
            };
        }
        let mut i: usize = 0;
        while i < self.retained.len()
            invariant
                e == self.env(),
                i <= self.retained@.len(),
                self.retained@.len() > 0,
                source::retained_drift(e.retained, member@, link@, i as nat) is None,
            decreases self.retained.len() - i,
        {
            assert(e.retained[i as int] == (
                self.retained@[i as int].commit,
                self.retained@[i as int].store@,
            ));
            if drifts(&self.retained[i].store.manifest.parts, member, link) {
                proof {
                    lemma_drift_prefix(
                        e.retained,
                        member@,
                        link@,
                        (i + 1) as nat,
                        e.retained.len(),
                    );
                }
                return Some(self.retained[i].commit);
            }
            i = i + 1;
        }
        None
    }

    fn count_pins(&self, member: &str) -> (r: usize)
        ensures
            r == audit::fit(source::pins(self.env(), member@)),
    {
        let ghost e = self.env();
        if self.retained.len() == 0 {
            return count_named(&self.current.manifest.parts, member, 0, Ghost(0));
        }
        let mut sum: usize = 0;
        let mut i: usize = 0;
        while i < self.retained.len()
            invariant
                e == self.env(),
                i <= self.retained@.len(),
                self.retained@.len() > 0,
                sum == audit::fit(source::retained_named(e.retained, member@, i as nat)),
            decreases self.retained.len() - i,
        {
            assert(e.retained[i as int].1 == self.retained@[i as int].store@);
            sum =
            count_named(
                &self.retained[i].store.manifest.parts,
                member,
                sum,
                Ghost(source::retained_named(e.retained, member@, i as nat)),
            );
            i = i + 1;
        }
        sum
    }

    pub(crate) fn authority(&self, a: Authority) -> (r: Option<&ReadStore>)
        requires
            self.wf(),
        ensures
            match r {
                Some(s) => source::authority_view(self.env(), a) == Some(s@) && part::parts_sound(
                    s@.parts,
                ),
                None => source::authority_view(self.env(), a) is None,
            },
    {
        match a {
            Authority::Current => Some(&self.current),
            Authority::Retained(commit) => find_retained(&self.retained, commit),
        }
    }

    fn check_checksum(&self, member: &str, start: u64, stop: u64) -> (r: Result<(), VerifyError>)
        requires
            self.wf(),
        ensures
            source::unit_fault(
                self.env(),
                UnitView::MemberChecksum { member: member@, start, stop },
            ) == match r {
                Ok(()) => None,
                Err(e) => Some(e),
            },
    {
        proof {
            container::lemma_position_from(self.container@.members, member@, 0);
        }
        match self.container.find(member) {
            None => Err(VerifyError::NoMember),
            Some(i) => {
                assert(self.container@.members[i as int] == self.container.members@[i as int]@);
                let held = &self.container.members[i].bytes;
                if stop == held.len() as u64 && hash::crc32(held.as_slice()) != self.container.members[i].checksum {
                    Err(VerifyError::Checksum)
                } else {
                    Ok(())
                }
            },
        }
    }

    fn check_digest(&self, member: &str, start: u64, stop: u64) -> (r: Result<usize, VerifyError>)
        requires
            self.wf(),
        ensures
            ({
                let u = UnitView::PartDigest { member: member@, start, stop };
                match r {
                    Ok(n) => source::unit_fault(self.env(), u) is None && source::held(
                        source::unit_found(self.env(), u),
                    ) == (Totals { digests: n, ..source::held(source::nothing()) }),
                    Err(e) => source::unit_fault(self.env(), u) == Some(e),
                }
            }),
    {
        proof {
            container::lemma_position_from(self.container@.members, member@, 0);
        }
        match self.container.find(member) {
            None => Err(VerifyError::NoMember),
            Some(i) => {
                assert(self.container@.members[i as int] == self.container.members@[i as int]@);
                let held = &self.container.members[i].bytes;
                if stop != held.len() as u64 {
                    return Ok(0);
                }
                let digest = hash::blake3_hash(held.as_slice());
                let link = text::hex_bytes(digest.as_slice());
                match self.find_drift(member, &link) {
                    Some(commit) => Err(VerifyError::Drifted { commit }),
                    None => Ok(self.count_pins(member)),
                }
            },
        }
    }

    fn part(&self, member: &str) -> (r: Option<&Part>)
        ensures
            match r {
                Some(p) => source::part_at(self.container@.members, member@) == Some(p@),
                None => source::part_at(self.container@.members, member@) is None,
            },
    {
        proof {
            container::lemma_position_from(self.container@.members, member@, 0);
        }
        match self.container.find(member) {
            None => None,
            Some(i) => {
                assert(self.container@.members[i as int] == self.container.members@[i as int]@);
                match &self.container.members[i].part {
                    Some(p) => Some(p),
                    None => None,
                }
            },
        }
    }

    fn check_pieces(&self, member: &str, authority: Authority) -> (r: Result<(), VerifyError>)
        requires
            self.wf(),
        ensures
            source::unit_fault(
                self.env(),
                UnitView::PartPieces { member: member@, authority },
            ) == match r {
                Ok(()) => None,
                Err(e) => Some(e),
            },
    {
        match (self.part(member), self.authority(authority)) {
            (Some(p), Some(s)) => match audit::verify_piece_dictionary(p, &s.fold) {
                Ok(_) => Ok(()),
                Err(error) => Err(VerifyError::Dictionary { error }),
            },
            _ => Err(VerifyError::NoPart),
        }
    }

    /// How long a segment of the current fold is.
    fn length(&self, seg: u32) -> (r: Option<u64>)
        ensures
            r == source::segment_len(self.current@.fold.segments, seg),
    {
        let ghost all = self.current@.fold.segments;
        let mut i: usize = 0;
        assert(all.skip(0) =~= all);
        while i < self.current.fold.segments.len()
            invariant
                all == self.current@.fold.segments,
                i <= self.current.fold.segments@.len(),
                source::segment_len(all, seg) == source::segment_len(all.skip(i as int), seg),
            decreases self.current.fold.segments.len() - i,
        {
            let (found, len) = self.current.fold.segments[i];
            assert(all.skip(i as int)[0] == (found, len));
            assert(all.skip(i as int).drop_first() =~= all.skip(i + 1));
            if found == seg {
                return Some(len);
            }
            i = i + 1;
        }
        None
    }

    fn check_frames(&self, seg: u32, start: u64, stop: u64) -> (r: Result<Totals, VerifyError>)
        ensures
            ({
                let u = UnitView::FoldFrames { seg, start, stop };
                match r {
                    Ok(t) => source::unit_fault(self.env(), u) is None && t == source::held(
                        source::unit_found(self.env(), u),
                    ),
                    Err(e) => source::unit_fault(self.env(), u) == Some(e),
                }
            }),
    {
        let ghost blocks = self.current@.fold.blocks;
        let len: u64 = match self.length(seg) {
            Some(len) => len,
            None => {
                return Err(VerifyError::Frames { seg });
            },
        };
        if stop >= len && crate::store::artifact::last_frame(&self.current.fold, seg) != len {
            return Err(VerifyError::Frames { seg });
        }
        let mut n: usize = 0;
        let mut bytes: u64 = 0;
        let mut i: usize = 0;
        while i < self.current.fold.blocks.len()
            invariant
                blocks == self.current@.fold.blocks,
                i <= self.current.fold.blocks@.len(),
                n == audit::fit(source::window_blocks(blocks, seg, start, stop, i as nat)),
                bytes == audit::fit64(source::window_decoded(blocks, seg, start, stop, i as nat)),
            decreases self.current.fold.blocks.len() - i,
        {
            assert(blocks[i as int] == self.current.fold.blocks@[i as int]@);
            let b = &self.current.fold.blocks[i];
            if b.segment == seg && start < b.end && b.end <= stop {
                n =
                audit::add_fit(
                    n,
                    1,
                    Ghost(source::window_blocks(blocks, seg, start, stop, i as nat)),
                );
                bytes =
                audit::add_fit64(
                    bytes,
                    b.bytes.len() as u64,
                    Ghost(source::window_decoded(blocks, seg, start, stop, i as nat)),
                );
            }
            i = i + 1;
        }
        let segments: usize = if stop == len {
            1
        } else {
            0
        };
        Ok(
            Totals {
                digests: 0,
                sections: 0,
                segments,
                blocks: n,
                fold_bytes: bytes,
                records: 0,
                values: 0,
                bytes: 0,
            },
        )
    }

    fn check_content(&self, authority: Authority, index: usize, start: usize, stop: usize) -> (r: Result<
        Totals,
        VerifyError,
    >)
        requires
            self.wf(),
        ensures
            ({
                let u = UnitView::Content { authority, part: index, start, stop };
                match r {
                    Ok(t) => source::unit_fault(self.env(), u) is None && t == source::held(
                        source::unit_found(self.env(), u),
                    ),
                    Err(e) => source::unit_fault(self.env(), u) == Some(e),
                }
            }),
    {
        let s = match self.authority(authority) {
            Some(s) => s,
            None => {
                return Err(VerifyError::NoPart);
            },
        };
        if index >= s.parts.len() {
            return Err(VerifyError::NoPart);
        }
        let ghost v = s@;
        let rows = source_plan::live_rows_of(s, index);
        let ghost window = source::window_rows(v, index as int, start, stop);
        let retained = match authority {
            Authority::Current => false,
            Authority::Retained(_) => true,
        };
        let (from, to) = if start <= stop && stop <= rows.len() {
            (start, stop)
        } else {
            (0, 0)
        };
        assert(rows@.subrange(from as int, to as int) =~= window);
        let t = match verify_rows(s, index, &rows, from, to, retained) {
            Ok(t) => t,
            Err(e) => {
                return Err(e);
            },
        };
        match authority {
            Authority::Current => Ok(t),
            Authority::Retained(_) => Ok(source::no_totals()),
        }
    }

    fn check_unit(&self, index: usize) -> (r: Result<Totals, VerifyError>)
        requires
            self.wf(),
            index < self.units@.len(),
        ensures
            ({
                let u = self.units@[index as int]@;
                match r {
                    Ok(t) => source::unit_fault(self.env(), u) is None && t == source::held(
                        source::unit_found(self.env(), u),
                    ),
                    Err(e) => source::unit_fault(self.env(), u) == Some(e),
                }
            }),
    {
        match &self.units[index] {
            VerifyUnit::MemberChecksum { member, start, stop } => match self.check_checksum(
                member.as_str(),
                *start,
                *stop,
            ) {
                Ok(()) => Ok(source::no_totals()),
                Err(e) => Err(e),
            },
            VerifyUnit::ManifestChain => match chain::verify_chain_container_scoped(
                &self.container,
                false,
            ) {
                Ok(_) => Ok(source::no_totals()),
                Err(error) => Err(VerifyError::Chain { error }),
            },
            VerifyUnit::PartDigest { member, start, stop } => match self.check_digest(
                member.as_str(),
                *start,
                *stop,
            ) {
                Ok(digests) => Ok(
                    Totals {
                        digests,
                        sections: 0,
                        segments: 0,
                        blocks: 0,
                        fold_bytes: 0,
                        records: 0,
                        values: 0,
                        bytes: 0,
                    },
                ),
                Err(e) => Err(e),
            },
            VerifyUnit::PartSection { member, section: _ } => match self.part(member.as_str()) {
                None => Err(VerifyError::Unreadable),
                Some(_) => {
                    let sections: usize = if namespace::manifest_names(
                        &self.current.manifest,
                        member.as_str(),
                    ) {
                        1
                    } else {
                        0
                    };
                    Ok(
                        Totals {
                            digests: 0,
                            sections,
                            segments: 0,
                            blocks: 0,
                            fold_bytes: 0,
                            records: 0,
                            values: 0,
                            bytes: 0,
                        },
                    )
                },
            },
            VerifyUnit::PartGrammar { member } => match self.part(member.as_str()) {
                None => Err(VerifyError::Unreadable),
                Some(p) => match p.verify_semantics() {
                    Ok(()) => Ok(source::no_totals()),
                    Err(error) => Err(VerifyError::Rows { error }),
                },
            },
            VerifyUnit::PartPieces { member, authority } => match self.check_pieces(
                member.as_str(),
                *authority,
            ) {
                Ok(()) => Ok(source::no_totals()),
                Err(e) => Err(e),
            },
            VerifyUnit::FoldFrames { seg, start, stop } => self.check_frames(*seg, *start, *stop),
            VerifyUnit::Content { authority, part, start, stop } => self.check_content(
                *authority,
                *part,
                *start,
                *stop,
            ),
        }
    }
}

proof fn lemma_live_row(parts: Seq<PartView>, p: int, n: nat, i: int)
    requires
        n <= parts[p].rows.len() <= usize::MAX,
        0 <= i < read::live_rows(parts, p, n).len(),
    ensures
        read::live_rows(parts, p, n)[i] < n,
        read::verdict(parts, p, read::live_rows(parts, p, n)[i] as int) == read::Verdict::Live,
    decreases n,
{
    if n > 0 {
        let before = read::live_rows(parts, p, (n - 1) as nat);
        if i < before.len() {
            lemma_live_row(parts, p, (n - 1) as nat, i);
        }
    }
}

proof fn lemma_rows_value_prefix(
    s: ReadStoreView,
    p: int,
    rows: Seq<usize>,
    retained: bool,
    k: nat,
    n: nat,
)
    requires
        k <= n,
        source::rows_value_fault(s, p, rows, retained, k) is Some,
    ensures
        source::rows_value_fault(s, p, rows, retained, n) == source::rows_value_fault(
            s,
            p,
            rows,
            retained,
            k,
        ),
    decreases n,
{
    if k < n {
        lemma_rows_value_prefix(s, p, rows, retained, k, (n - 1) as nat);
    }
}

/// Whether a unit's window follows another one of the same bytes.
pub open spec fn follows(u: UnitView) -> bool {
    match u {
        UnitView::MemberChecksum { member: _, start, stop: _ } => start > 0,
        UnitView::PartDigest { member: _, start, stop: _ } => start > 0,
        UnitView::FoldFrames { seg: _, start, stop: _ } => start
            > crate::store::names::SEG_HDR_LEN,
        _ => false,
    }
}

/// What running a unit does.
pub open spec fn run_outcome(
    before: SourceVerifier,
    after: SourceVerifier,
    index: int,
    r: Result<(), VerifyError>,
) -> bool {
    let e = before.env();
    let units = source::units_view(before.units@);
    if index >= units.len() {
        r == Err::<(), VerifyError>(VerifyError::NoUnit) && after == before
    } else if before.done@[index] {
        r == Ok::<(), VerifyError>(()) && after == before
    } else if follows(units[index]) && (index == 0 || !before.done@[index - 1]) {
        r == Err::<(), VerifyError>(VerifyError::OutOfOrder) && after == before
    } else {
        match source::unit_fault(e, units[index]) {
            Some(error) => r == Err::<(), VerifyError>(error) && after == before,
            None => {
                &&& r == Ok::<(), VerifyError>(())
                &&& after.env() == e
                &&& source::units_view(after.units@) == units
                &&& after.done@ == before.done@.update(index, true)
            },
        }
    }
}

/// How many of the first `n` units ran.
pub open spec fn done_count(done: Seq<bool>, n: nat) -> nat
    decreases n,
{
    if n == 0 {
        0
    } else {
        done_count(done, (n - 1) as nat) + if done[n - 1] {
            1nat
        } else {
            0
        }
    }
}

/// What a verification establishes once every unit has run.
pub open spec fn report_of(e: EnvView, t: Totals) -> SourceVerification {
    let shallow = chain::chain_report(e.c, false);
    SourceVerification {
        members: e.c.members.len() as usize,
        member_bytes: audit::fit64(
            crate::store::artifact::members_bytes(e.c.members, e.c.members.len()),
        ),
        commit: e.current.manifest.commit,
        store: StoreVerification {
            chain: ChainReport { part_digests: t.digests, ..shallow },
            fold: FoldScrub { segments: t.segments, blocks: t.blocks, bytes: t.fold_bytes },
            parts: e.current.parts.len() as usize,
            part_sections: t.sections,
            records: t.records,
            content_values: t.values,
            content_bytes: t.bytes,
            content_identities: t.values,
        },
    }
}

/// What every planned unit together finds.
pub open spec fn all_found(e: EnvView) -> Found {
    let units = source::plan_of(e);
    source::found_among(e, units, Seq::new(units.len(), |i: int| true), units.len())
}

proof fn lemma_all_done(done: Seq<bool>, n: nat)
    requires
        n <= done.len(),
    ensures
        done_count(done, n) <= n,
        done_count(done, n) == n <==> forall|i: int| 0 <= i < n ==> #[trigger] done[i],
    decreases n,
{
    if n > 0 {
        lemma_all_done(done, (n - 1) as nat);
        if forall|i: int| 0 <= i < n ==> #[trigger] done[i] {
            assert(done[n - 1]);
        }
    }
}

proof fn lemma_chain_planned(e: EnvView)
    ensures
        ({
            let k = source::member_units(e, e.c.members.len()).len() as int;
            0 <= k < source::plan_of(e).len() && source::plan_of(e)[k] is ManifestChain
        }),
{
    reveal(source::plan_of);
}

/// A store that is held has sizes that a machine can hold.
proof fn lemma_store_sized(s: &ReadStore)
    ensures
        source_laws::view_sized(s@),
{
    assert(s@.parts.len() == s.parts.len());
    assert forall|p: int| 0 <= p < s@.parts.len() implies (#[trigger] s@.parts[p]).rows.len()
        <= usize::MAX by {
        assert(s@.parts[p] == s.parts@[p]@);
        assert(s@.parts[p].rows.len() == s.parts@[p].rows.len());
    }
}

proof fn lemma_env_sized(
    container: &Container,
    current: &ReadStore,
    retained: &Vec<RetainedAuthority>,
    e: EnvView,
)
    requires
        e.c == container@,
        e.current == current@,
        e.retained == source_plan::retained_view(retained@),
    ensures
        source_laws::sized(e),
{
    assert forall|i: int| 0 <= i < e.c.members.len() implies (
    #[trigger] e.c.members[i]).bytes.len() <= u64::MAX by {
        assert(e.c.members[i].bytes.len() == container.members@[i].bytes.len());
    }
    lemma_store_sized(current);
    assert forall|k: int| 0 <= k < e.retained.len() implies source_laws::view_sized(
        (#[trigger] e.retained[k]).1,
    ) by {
        lemma_store_sized(&retained@[k].store);
    }
}

impl SourceVerifier {
    /// Open a container, and plan its verification.
    pub fn open(container: Container, limits: ReadLimits) -> (r: Result<SourceVerifier, VerifyError>)
        ensures
            match r {
                Ok(v) => {
                    &&& open_fault(container@, limits) is None
                    &&& v.wf()
                    &&& v.env().c == container@
                    &&& env_opened(v.env(), limits)
                    &&& source_laws::sized(v.env())
                    &&& forall|i: int| 0 <= i < v.done@.len() ==> !#[trigger] v.done@[i]
                },
                Err(e) => open_fault(container@, limits) == Some(e),
            },
    {
        if let Err(error) = limits.admit_directory_entries(container.members.len() as u64) {
            return Err(VerifyError::Directory { error });
        }
        let current = match open::open_read_container_source(&container, limits) {
            Ok(s) => s,
            Err(error) => {
                return Err(VerifyError::Open { error });
            },
        };
        if let Err(error) = checksum::verified_punched_fold_members(&container, limits) {
            return Err(VerifyError::Punched { error });
        }
        let retained = match open_retained(&container, &current, limits) {
            Ok(v) => v,
            Err(e) => {
                return Err(e);
            },
        };
        let ghost partial = EnvView {
            c: container@,
            current: current@,
            retained: source_plan::retained_view(retained@),
            names: Seq::empty(),
        };
        let names = source_plan::part_names(&current, &retained, Ghost(partial));
        let ghost e = EnvView { names: scan::texts_view(names@), ..partial };
        let units = source_plan::plan(&container, &current, &retained, &names, Ghost(e));
        let mut done: Vec<bool> = Vec::new();
        while done.len() < units.len()
            invariant
                done@.len() <= units@.len(),
                forall|i: int| 0 <= i < done@.len() ==> !#[trigger] done@[i],
            decreases units.len() - done.len(),
        {
            done.push(false);
        }
        proof {
            lemma_env_sized(&container, &current, &retained, e);
            lemma_none_done(e, source::units_view(units@), done@, done@.len());
            assert forall|x: Seq<char>| #[trigger]
                e.names.contains(x) <==> source_plan::named_anywhere(e, x) by {
                assert(source_plan::named_anywhere(e, x) == source_plan::named_anywhere(
                    partial,
                    x,
                ));
            }
        }
        Ok(
            SourceVerifier {
                container,
                current,
                retained,
                names,
                units,
                done,
                totals: source::no_totals(),
                chain: None,
            },
        )
    }

    /// The planned units, in the order windows must run.
    pub fn units(&self) -> (r: &Vec<VerifyUnit>)
        ensures
            *r == self.units,
    {
        &self.units
    }

    /// How many units ran, and how many were planned.
    pub fn progress(&self) -> (r: (usize, usize))
        requires
            self.wf(),
        ensures
            r.0 == done_count(self.done@, self.done@.len()),
            r.1 == self.units@.len(),
    {
        (count_done(&self.done), self.units.len())
    }

    /// The current revision.
    pub fn commit(&self) -> (r: u64)
        ensures
            r == self.current@.manifest.commit,
    {
        self.current.manifest.commit
    }

    /// Run one unit. A unit that ran is left alone, a window whose predecessor has not run is
    /// refused, and a unit that fails leaves the verification as it was.
    pub fn run(&mut self, index: usize) -> (r: Result<(), VerifyError>)
        requires
            old(self).wf(),
        ensures
            final(self).wf(),
            run_outcome(*old(self), *final(self), index as int, r),
    {
        if index >= self.units.len() {
            return Err(VerifyError::NoUnit);
        }
        if self.done[index] {
            return Ok(());
        }
        assert(source::units_view(self.units@)[index as int] == self.units@[index as int]@);
        let windowed = match &self.units[index] {
            VerifyUnit::MemberChecksum { member: _, start, stop: _ } => *start > 0,
            VerifyUnit::PartDigest { member: _, start, stop: _ } => *start > 0,
            VerifyUnit::FoldFrames { seg: _, start, stop: _ } => *start
                > crate::store::names::SEG_HDR_LEN,
            _ => false,
        };
        if windowed && (index == 0 || !self.done[index - 1]) {
            return Err(VerifyError::OutOfOrder);
        }
        let ghost e = self.env();
        let ghost units = source::units_view(self.units@);
        let ghost before = self.done@;
        let t = match self.check_unit(index) {
            Ok(t) => t,
            Err(error) => {
                return Err(error);
            },
        };
        let is_chain = match &self.units[index] {
            VerifyUnit::ManifestChain => true,
            _ => false,
        };
        proof {
            lemma_one_done(e, units, before, index as int, units.len());
        }
        let totals = source::join_totals(
            self.totals,
            t,
            Ghost(source::found_among(e, units, before, units.len())),
            Ghost(source::unit_found(e, units[index as int])),
        );
        if is_chain {
            match chain::verify_chain_container_scoped(&self.container, false) {
                Ok(report) => {
                    self.chain = Some(report);
                },
                Err(_) => {},
            }
        }
        self.totals = totals;
        self.done.set(index, true);
        Ok(())
    }

    /// The whole result, once every unit has run.
    pub fn report(&self) -> (r: Result<SourceVerification, VerifyError>)
        requires
            self.wf(),
        ensures
            ({
                let n = self.units@.len();
                let done = done_count(self.done@, n);
                if done != n {
                    r == Err::<SourceVerification, VerifyError>(
                        VerifyError::Incomplete { done: done as usize, total: n as usize },
                    )
                } else {
                    &&& r == Ok::<SourceVerification, VerifyError>(
                        report_of(self.env(), source::held(all_found(self.env()))),
                    )
                    &&& forall|i: int|
                        0 <= i < n ==> source::unit_fault(
                            self.env(),
                            #[trigger] source::plan_of(self.env())[i],
                        ) is None
                }
            }),
    {
        let (done, total) = self.progress();
        if done != total {
            return Err(VerifyError::Incomplete { done, total });
        }
        let ghost e = self.env();
        let ghost units = source::plan_of(e);
        proof {
            lemma_all_done(self.done@, self.done@.len());
            lemma_chain_planned(e);
            let k = source::member_units(e, e.c.members.len()).len() as int;
            assert(self.done@[k]);
            assert(self.chain == Some(chain::chain_report(e.c, false)));
            assert(self.done@ =~= Seq::new(units.len(), |i: int| true));
            assert forall|i: int| 0 <= i < units.len() implies source::unit_fault(
                e,
                #[trigger] units[i],
            ) is None by {
                assert(self.done@[i]);
            }
        }
        let chain = match self.chain {
            Some(c) => c,
            None => ChainReport { retained_manifests: 0, links: 0, part_digests: 0 },
        };
        Ok(
            SourceVerification {
                members: self.container.members.len(),
                member_bytes: crate::store::artifact::count_bytes(&self.container),
                commit: self.current.manifest.commit,
                store: StoreVerification {
                    chain: ChainReport {
                        retained_manifests: chain.retained_manifests,
                        links: chain.links,
                        part_digests: self.totals.digests,
                    },
                    fold: FoldScrub {
                        segments: self.totals.segments,
                        blocks: self.totals.blocks,
                        bytes: self.totals.fold_bytes,
                    },
                    parts: self.current.parts.len(),
                    part_sections: self.totals.sections,
                    records: self.totals.records,
                    content_values: self.totals.values,
                    content_bytes: self.totals.bytes,
                    content_identities: self.totals.values,
                },
            },
        )
    }
}

/// What is wrong first with the planned units, of the first `n`.
pub open spec fn plan_fault(e: EnvView, n: nat) -> Option<VerifyError>
    decreases n,
{
    if n == 0 {
        None
    } else {
        match plan_fault(e, (n - 1) as nat) {
            Some(error) => Some(error),
            None => source::unit_fault(e, source::plan_of(e)[n - 1]),
        }
    }
}

proof fn lemma_plan_fault_prefix(e: EnvView, k: nat, n: nat)
    requires
        k <= n,
        plan_fault(e, k) is Some,
    ensures
        plan_fault(e, n) == plan_fault(e, k),
    decreases n,
{
    if k < n {
        lemma_plan_fault_prefix(e, k, (n - 1) as nat);
    }
}

/// What verifying a whole container gives, once it was opened as `e`.
pub open spec fn source_outcome(e: EnvView) -> Result<SourceVerification, VerifyError> {
    match plan_fault(e, source::plan_of(e).len()) {
        Some(error) => Err(error),
        None => Ok(report_of(e, source::held(all_found(e)))),
    }
}

proof fn lemma_first_window(e: EnvView, n: nat)
    ensures
        source::member_units(e, n).len() > 0 ==> !follows(source::member_units(e, n)[0]),
    decreases n,
{
    if n > 0 {
        lemma_first_window(e, (n - 1) as nat);
        let m = e.c.members[n - 1];
        let w = crate::store::verify::windows_of(0, m.bytes.len() as u64);
        let before = source::member_units(e, (n - 1) as nat);
        let more = source::checksum_units(m.name, w);
        assert(w.len() > 0 && w[0].0 == 0);
        if before.len() == 0 {
            assert((before + more)[0] == more[0]);
        } else {
            assert((before + more)[0] == before[0]);
        }
    }
}

/// The first planned unit follows none.
proof fn lemma_first_unit(e: EnvView)
    ensures
        source::plan_of(e).len() > 0,
        !follows(source::plan_of(e)[0]),
{
    lemma_first_window(e, e.c.members.len());
    lemma_chain_planned(e);
    reveal(source::plan_of);
    let m = source::member_units(e, e.c.members.len());
    if m.len() > 0 {
        assert(source::plan_of(e)[0] == m[0]);
    }
}

/// What verifying a whole container gives: why it does not open, or what its units come to.
pub open spec fn verified_as(
    c: ContainerView,
    limits: ReadLimits,
    r: Result<SourceVerification, VerifyError>,
) -> bool {
    match open_fault(c, limits) {
        Some(e) => r == Err::<SourceVerification, VerifyError>(e),
        None => exists|e: EnvView|
            e.c == c && #[trigger] env_opened(e, limits) && source_laws::sized(e) && r
                == source_outcome(e),
    }
}

/// Verify a whole container: open it, run every unit in order, and report.
pub fn verify_source(container: Container, limits: ReadLimits) -> (r: Result<
    SourceVerification,
    VerifyError,
>)
    ensures
        verified_as(container@, limits, r),
{
    let mut v = match SourceVerifier::open(container, limits) {
        Ok(v) => v,
        Err(e) => {
            return Err(e);
        },
    };
    let ghost e = v.env();
    let ghost plan = source::plan_of(e);
    proof {
        lemma_first_unit(e);
        assert(env_opened(e, limits));
    }
    let total: usize = v.units.len();
    let mut i: usize = 0;
    while i < total
        invariant
            v.wf(),
            v.env() == e,
            plan == source::plan_of(e),
            source::units_view(v.units@) == plan,
            total == plan.len(),
            i <= total,
            e.c == container@,
            env_opened(e, limits),
            source_laws::sized(e),
            open_fault(container@, limits) is None,
            total > 0 ==> !follows(plan[0]),
            plan_fault(e, i as nat) is None,
            forall|k: int| 0 <= k < i ==> #[trigger] v.done@[k],
            forall|k: int| i <= k < total ==> !#[trigger] v.done@[k],
        decreases total - i,
    {
        let ghost before = v.done@;
        assert(!before[i as int]);
        assert(i > 0 ==> before[i - 1]);
        match v.run(i) {
            Ok(()) => {
                assert(v.done@ == before.update(i as int, true));
            },
            Err(error) => {
                proof {
                    lemma_plan_fault_prefix(e, (i + 1) as nat, plan.len());
                }
                return Err(error);
            },
        }
        i = i + 1;
    }
    proof {
        lemma_all_done(v.done@, v.done@.len());
    }
    v.report()
}

fn count_done(done: &Vec<bool>) -> (r: usize)
    ensures
        r == done_count(done@, done@.len()),
        r <= done@.len(),
{
    let mut n: usize = 0;
    let mut i: usize = 0;
    while i < done.len()
        invariant
            i <= done@.len(),
            n <= i,
            n == done_count(done@, i as nat),
        decreases done.len() - i,
    {
        if done[i] {
            n = n + 1;
        }
        i = i + 1;
    }
    n
}

} // verus!
