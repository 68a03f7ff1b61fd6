//! Transient names that store protocols leave beside a store after a crash.
//!
//! Recognition is exact. Beside a present store the names are dead and may go; beside an absent
//! one they refuse a creation over an interrupted protocol. Names are bytes: a file name need not
//! be text.

use crate::bytes;
use crate::read_limits::{ReadAdmissionError, ReadLimits};
use crate::store::names;
use vstd::prelude::*;
use vstd::slice::slice_subrange;
use vstd::utf8::*;

verus! {

/// What left a name behind.
#[non_exhaustive]
#[derive(Clone, Copy, Debug, PartialEq, Eq, Structural)]
pub enum DebrisKind {
    /// `<final>.publish-<pid>-<n>` of an interrupted installation.
    PendingPublish,
    /// `<store>.creating-<pid>-<n>` of a staged birth.
    CreationStaging,
    /// `<store>.reclaiming` before a reclaim installs its anchor.
    ReclaimStaging,
    /// `<store>.reclaimed`, debris only beside a present store.
    ReclaimAnchor,
    /// `<store>.reclaim-candidate` or `<store>.reclaim-candidate.tmp`.
    ReclaimCandidate,
    /// `<store>-tmp/`, where merges spool.
    MergeScratch,
    /// `<store>.backing-up-<pid>-<n>` or `<store>.restoring-<pid>-<n>`.
    ArtifactStaging,
}

/// One name left behind, inside the directory that holds the store.
#[non_exhaustive]
#[derive(Clone, Debug, PartialEq, Eq)]
pub struct DebrisEntry {
    pub name: Vec<u8>,
    pub kind: DebrisKind,
}

/// View of a [`DebrisEntry`].
pub struct DebrisView {
    pub name: Seq<u8>,
    pub kind: DebrisKind,
}

impl View for DebrisEntry {
    type V = DebrisView;

    open spec fn view(&self) -> DebrisView {
        DebrisView { name: self.name@, kind: self.kind }
    }
}

/// Views of entries.
pub open spec fn entries_view(entries: Seq<DebrisEntry>) -> Seq<DebrisView> {
    Seq::new(entries.len(), |i: int| entries[i]@)
}

/// Every name left behind, in order.
#[non_exhaustive]
#[derive(Clone, Debug, PartialEq, Eq)]
pub struct DebrisReport {
    pub entries: Vec<DebrisEntry>,
}

/// One name in the directory that holds the store.
#[derive(Debug, PartialEq, Eq)]
pub struct SiblingName {
    pub name: Vec<u8>,
    pub is_file: bool,
    pub is_dir: bool,
}

/// View of a [`SiblingName`].
pub struct SiblingView {
    pub name: Seq<u8>,
    pub is_file: bool,
    pub is_dir: bool,
}

impl View for SiblingName {
    type V = SiblingView;

    open spec fn view(&self) -> SiblingView {
        SiblingView { name: self.name@, is_file: self.is_file, is_dir: self.is_dir }
    }
}

/// Views of a directory's names.
pub open spec fn siblings_view(listing: Seq<SiblingName>) -> Seq<SiblingView> {
    Seq::new(listing.len(), |i: int| listing[i]@)
}

/// A name reserved for the protocols of another store.
#[derive(Clone, Copy, Debug, PartialEq, Eq, Structural)]
pub struct ReservedName;

// ---------------------------------------------------------------------------------------------
// The grammar.
// ---------------------------------------------------------------------------------------------
/// The place of the dash in a process id and a serial number joined by one.
pub open spec fn splits_at(s: Seq<u8>, d: int) -> bool {
    &&& 0 <= d < s.len()
    &&& s[d] == 45
    &&& names::digits_u64(s.take(d)) matches Some(pid) && pid <= u32::MAX
    &&& names::digits_u64(s.skip(d + 1)) is Some
}

/// A process id and a serial number, joined by a dash.
pub open spec fn numbered(s: Seq<u8>) -> bool {
    exists|d: int| splits_at(s, d)
}

/// A marker followed by its instance numbers.
pub open spec fn instance(s: Seq<u8>, marker: Seq<u8>) -> bool {
    bytes::starts_with(s, marker) && numbered(s.subrange(marker.len() as int, s.len() as int))
}

/// What follows a name in another.
pub open spec fn instance_of(name: Seq<u8>, candidate: Seq<u8>, marker: Seq<u8>) -> bool {
    bytes::starts_with(candidate, name) && instance(
        candidate.subrange(name.len() as int, candidate.len() as int),
        marker,
    )
}

/// A non-empty name followed by a marker's instance.
pub open spec fn instance_suffix(name: Seq<u8>, marker: Seq<u8>) -> bool {
    exists|m: int|
        0 < m <= name.len() && #[trigger] instance(name.subrange(m, name.len() as int), marker)
}

/// Whether a name could be taken for another store's protocol state.
pub open spec fn reserved(name: Seq<u8>) -> bool {
    ||| bytes::ends_with(name, encode_utf8("-wal"@))
    ||| bytes::ends_with(name, encode_utf8("-tmp"@))
    ||| bytes::ends_with(name, encode_utf8(".reclaiming"@))
    ||| bytes::ends_with(name, encode_utf8(".reclaimed"@))
    ||| bytes::ends_with(name, encode_utf8(".reclaim-candidate"@))
    ||| bytes::ends_with(name, encode_utf8(".reclaim-candidate.tmp"@))
    ||| instance_suffix(name, encode_utf8(".publish-"@))
    ||| instance_suffix(name, encode_utf8(".creating-"@))
    ||| instance_suffix(name, encode_utf8(".backing-up-"@))
    ||| instance_suffix(name, encode_utf8(".restoring-"@))
}

/// Whether a name is a pending publication of one of a store's final names.
pub open spec fn pending_of_store(store: Seq<u8>, name: Seq<u8>) -> bool {
    let marker = encode_utf8(".publish-"@);
    ||| instance_of(store, name, marker)
    ||| instance_of(store + encode_utf8("-wal"@), name, marker)
    ||| instance_of(store + encode_utf8(".reclaiming"@), name, marker)
    ||| instance_of(store + encode_utf8(".reclaimed"@), name, marker)
    ||| instance_of(store + encode_utf8(".reclaim-candidate.tmp"@), name, marker)
    ||| instance_of(store + encode_utf8(".reclaim-candidate"@), name, marker)
}

/// What a name beside a store is.
pub open spec fn debris_kind(store: Seq<u8>, present: bool, e: SiblingView) -> Option<DebrisKind> {
    if e.is_dir && e.name == store + encode_utf8("-tmp"@) {
        Some(DebrisKind::MergeScratch)
    } else if !e.is_file {
        None
    } else if e.name == store + encode_utf8(".reclaiming"@) {
        Some(DebrisKind::ReclaimStaging)
    } else if e.name == store + encode_utf8(".reclaimed"@) {
        if present {
            Some(DebrisKind::ReclaimAnchor)
        } else {
            None
        }
    } else if e.name == store + encode_utf8(".reclaim-candidate.tmp"@) || e.name == store
        + encode_utf8(".reclaim-candidate"@) {
        Some(DebrisKind::ReclaimCandidate)
    } else if pending_of_store(store, e.name) {
        Some(DebrisKind::PendingPublish)
    } else if instance_of(store, e.name, encode_utf8(".creating-"@)) {
        Some(DebrisKind::CreationStaging)
    } else if instance_of(store, e.name, encode_utf8(".backing-up-"@)) || instance_of(
        store,
        e.name,
        encode_utf8(".restoring-"@),
    ) {
        Some(DebrisKind::ArtifactStaging)
    } else {
        None
    }
}

/// Entries in order with one more, after its equals.
pub open spec fn entry_inserted(entries: Seq<DebrisView>, e: DebrisView) -> Seq<DebrisView>
    decreases entries.len(),
{
    if entries.len() == 0 || !bytes::lex_lt(e.name, entries.last().name) {
        entries.push(e)
    } else {
        entry_inserted(entries.drop_last(), e).push(entries.last())
    }
}

/// The debris among the first `n` names of a directory, in order.
pub open spec fn debris_among(
    store: Seq<u8>,
    present: bool,
    listing: Seq<SiblingView>,
    n: nat,
) -> Seq<DebrisView>
    decreases n,
{
    if n == 0 {
        Seq::empty()
    } else {
        let before = debris_among(store, present, listing, (n - 1) as nat);
        match debris_kind(store, present, listing[n - 1]) {
            None => before,
            Some(kind) => entry_inserted(before, DebrisView { name: listing[n - 1].name, kind }),
        }
    }
}

/// Names in order with one more, after its equals.
pub open spec fn name_inserted(names: Seq<Seq<u8>>, e: Seq<u8>) -> Seq<Seq<u8>>
    decreases names.len(),
{
    if names.len() == 0 || !bytes::lex_lt(e, names.last()) {
        names.push(e)
    } else {
        name_inserted(names.drop_last(), e).push(names.last())
    }
}

/// Whether a name beside an absent store refuses its creation: debris that a staged birth did not
/// leave, and the log of a store that is gone.
pub open spec fn refuses_creation(store: Seq<u8>, present: bool, taken: bool, e: SiblingView) -> bool {
    match debris_kind(store, present, e) {
        Some(kind) => kind != DebrisKind::CreationStaging,
        None => !taken && e.is_file && e.name == store + encode_utf8("-wal"@),
    }
}

/// The names among the first `n` that refuse a creation, in order.
pub open spec fn refusing_among(
    store: Seq<u8>,
    present: bool,
    taken: bool,
    listing: Seq<SiblingView>,
    n: nat,
) -> Seq<Seq<u8>>
    decreases n,
{
    if n == 0 {
        Seq::empty()
    } else {
        let before = refusing_among(store, present, taken, listing, (n - 1) as nat);
        if refuses_creation(store, present, taken, listing[n - 1]) {
            name_inserted(before, listing[n - 1].name)
        } else {
            before
        }
    }
}

fn is_numbered(s: &[u8]) -> (r: bool)
    ensures
        r == numbered(s@),
{
    let mut d: usize = 0;
    while d < s.len()
        invariant
            d <= s@.len(),
            forall|k: int| 0 <= k < d ==> !splits_at(s@, k),
            forall|k: int| 0 <= k < d ==> #[trigger] s@[k] != 45,
        decreases s.len() - d,
    {
        if s[d] == 45 {
            let pid = names::parse_u64(slice_subrange(s, 0, d));
            let serial = names::parse_u64(slice_subrange(s, d + 1, s.len()));
            proof {
                assert(s@.subrange(0, d as int) =~= s@.take(d as int));
                assert(s@.subrange(d + 1, s@.len() as int) =~= s@.skip(d + 1));
            }
            let ok = match (pid, serial) {
                (Some(p), Some(_)) => p <= u32::MAX as u64,
                _ => false,
            };
            if ok {
                assert(splits_at(s@, d as int));
                return true;
            }
            assert forall|k: int| 0 <= k < s@.len() implies !splits_at(s@, k) by {
                if k > d && splits_at(s@, k) {
                    assert(names::all_digits(s@.take(k)));
                    assert(names::is_digit(s@.take(k)[d as int]));
                }
            }
            return false;
        }
        d = d + 1;
    }
    assert forall|k: int| !splits_at(s@, k) by {}
    false
}

fn is_instance(s: &[u8], marker: &[u8]) -> (r: bool)
    ensures
        r == instance(s@, marker@),
{
    match bytes::strip_prefix(s, marker) {
        Some(rest) => is_numbered(rest),
        None => false,
    }
}

fn is_instance_of(name: &[u8], candidate: &[u8], marker: &[u8]) -> (r: bool)
    ensures
        r == instance_of(name@, candidate@, marker@),
{
    match bytes::strip_prefix(candidate, name) {
        Some(rest) => is_instance(rest, marker),
        None => false,
    }
}

fn has_instance_suffix(name: &[u8], marker: &[u8]) -> (r: bool)
    ensures
        r == instance_suffix(name@, marker@),
{
    let mut m: usize = 1;
    while m <= name.len()
        invariant
            1 <= m <= name@.len() + 1,
            forall|k: int|
                0 < k < m ==> !#[trigger] instance(name@.subrange(k, name@.len() as int), marker@),
        decreases name.len() + 1 - m,
    {
        if is_instance(slice_subrange(name, m, name.len()), marker) {
            assert(instance(name@.subrange(m as int, name@.len() as int), marker@));
            return true;
        }
        if m == name.len() {
            return false;
        }
        m = m + 1;
    }
    false
}

/// Whether a name is a pending publication of another.
pub fn is_pending_publish_of(final_name: &str, candidate: &str) -> (r: bool)
    ensures
        r == instance_of(
            encode_utf8(final_name@),
            encode_utf8(candidate@),
            encode_utf8(".publish-"@),
        ),
{
    is_instance_of(final_name.as_bytes(), candidate.as_bytes(), ".publish-".as_bytes())
}

/// Refuse a store name that another store would take for its own protocol state.
pub fn validate_store_path(name: &[u8]) -> (r: Result<(), ReservedName>)
    ensures
        r is Ok <==> !reserved(name@),
{
    if bytes::strip_suffix(name, "-wal".as_bytes()).is_some() || bytes::strip_suffix(
        name,
        "-tmp".as_bytes(),
    ).is_some() || bytes::strip_suffix(name, ".reclaiming".as_bytes()).is_some()
        || bytes::strip_suffix(name, ".reclaimed".as_bytes()).is_some() || bytes::strip_suffix(
        name,
        ".reclaim-candidate".as_bytes(),
    ).is_some() || bytes::strip_suffix(name, ".reclaim-candidate.tmp".as_bytes()).is_some()
        || has_instance_suffix(name, ".publish-".as_bytes()) || has_instance_suffix(
        name,
        ".creating-".as_bytes(),
    ) || has_instance_suffix(name, ".backing-up-".as_bytes()) || has_instance_suffix(
        name,
        ".restoring-".as_bytes(),
    ) {
        return Err(ReservedName);
    }
    Ok(())
}

/// A name with a suffix.
pub fn with_suffix(name: &[u8], suffix: &str) -> (r: Vec<u8>)
    ensures
        r@ == name@ + encode_utf8(suffix@),
{
    let mut out: Vec<u8> = Vec::new();
    bytes::append_bytes(&mut out, name);
    bytes::append_bytes(&mut out, suffix.as_bytes());
    assert(out@ =~= name@ + encode_utf8(suffix@));
    out
}

fn is_pending_of_store(store: &[u8], name: &[u8]) -> (r: bool)
    ensures
        r == pending_of_store(store@, name@),
{
    let marker = ".publish-".as_bytes();
    is_instance_of(store, name, marker) || is_instance_of(
        with_suffix(store, "-wal").as_slice(),
        name,
        marker,
    ) || is_instance_of(with_suffix(store, ".reclaiming").as_slice(), name, marker)
        || is_instance_of(with_suffix(store, ".reclaimed").as_slice(), name, marker)
        || is_instance_of(with_suffix(store, ".reclaim-candidate.tmp").as_slice(), name, marker)
        || is_instance_of(with_suffix(store, ".reclaim-candidate").as_slice(), name, marker)
}

/// What a name beside a store is.
pub fn classify(store: &[u8], present: bool, e: &SiblingName) -> (r: Option<DebrisKind>)
    ensures
        r == debris_kind(store@, present, e@),
{
    let name = e.name.as_slice();
    if e.is_dir && bytes::bytes_eq(name, with_suffix(store, "-tmp").as_slice()) {
        return Some(DebrisKind::MergeScratch);
    }
    if !e.is_file {
        return None;
    }
    if bytes::bytes_eq(name, with_suffix(store, ".reclaiming").as_slice()) {
        return Some(DebrisKind::ReclaimStaging);
    }
    if bytes::bytes_eq(name, with_suffix(store, ".reclaimed").as_slice()) {
        return if present {
            Some(DebrisKind::ReclaimAnchor)
        } else {
            None
        };
    }
    if bytes::bytes_eq(name, with_suffix(store, ".reclaim-candidate.tmp").as_slice())
        || bytes::bytes_eq(name, with_suffix(store, ".reclaim-candidate").as_slice()) {
        return Some(DebrisKind::ReclaimCandidate);
    }
    if is_pending_of_store(store, name) {
        return Some(DebrisKind::PendingPublish);
    }
    if is_instance_of(store, name, ".creating-".as_bytes()) {
        return Some(DebrisKind::CreationStaging);
    }
    if is_instance_of(store, name, ".backing-up-".as_bytes()) || is_instance_of(
        store,
        name,
        ".restoring-".as_bytes(),
    ) {
        return Some(DebrisKind::ArtifactStaging);
    }
    None
}

fn copy_name(name: &Vec<u8>) -> (r: Vec<u8>)
    ensures
        r@ == name@,
{
    let mut out: Vec<u8> = Vec::new();
    bytes::append_bytes(&mut out, name.as_slice());
    assert(out@ =~= name@);
    out
}

proof fn lemma_entry_inserted(entries: Seq<DebrisView>, e: DebrisView, k: int)
    requires
        0 <= k <= entries.len(),
        k == 0 || !bytes::lex_lt(e.name, entries[k - 1].name),
        forall|i: int| k <= i < entries.len() ==> bytes::lex_lt(e.name, (#[trigger] entries[i]).name),
    ensures
        entry_inserted(entries, e) == entries.insert(k, e),
    decreases entries.len(),
{
    if k < entries.len() {
        lemma_entry_inserted(entries.drop_last(), e, k);
        assert(entry_inserted(entries, e) =~= entries.insert(k, e));
    } else {
        assert(entries.insert(k, e) =~= entries.push(e));
    }
}

fn insert_entry(entries: &mut Vec<DebrisEntry>, e: DebrisEntry)
    ensures
        entries_view(final(entries)@) == entry_inserted(entries_view(old(entries)@), e@),
{
    let ghost before = entries_view(entries@);
    let ghost held = entries@;
    let ghost v = e@;
    let mut k: usize = entries.len();
    while k > 0 && bytes::bytes_lt(e.name.as_slice(), entries[k - 1].name.as_slice())
        invariant
            entries@ == held,
            before == entries_view(held),
            v == e@,
            k <= entries@.len(),
            forall|i: int|
                k <= i < before.len() ==> bytes::lex_lt(v.name, (#[trigger] before[i]).name),
        decreases k,
    {
        assert(before[k - 1] == held[k - 1]@);
        k = k - 1;
    }
    entries.insert(k, e);
    proof {
        if k > 0 {
            assert(before[k - 1] == held[k - 1]@);
        }
        lemma_entry_inserted(before, v, k as int);
        assert(entries_view(entries@) =~= before.insert(k as int, v));
    }
}

/// The names that store protocols left beside a store. The host lists the directory that holds it.
pub fn debris_report_with_limits(
    store: &[u8],
    present: bool,
    listing: &Vec<SiblingName>,
    limits: ReadLimits,
) -> (r: Result<DebrisReport, ReadAdmissionError>)
    ensures
        ({
            let all = siblings_view(listing@);
            match r {
                Ok(report) => all.len() <= limits.max_directory_entries && entries_view(
                    report.entries@,
                ) == debris_among(store@, present, all, all.len()),
                Err(e) => all.len() > limits.max_directory_entries && e
                    == (ReadAdmissionError::TooManyDirectoryEntries {
                    actual: (limits.max_directory_entries + 1) as u64,
                    allowed: limits.max_directory_entries,
                }),
            }
        }),
{
    let ghost all = siblings_view(listing@);
    if listing.len() as u64 > limits.max_directory_entries {
        return Err(
            ReadAdmissionError::TooManyDirectoryEntries {
                actual: limits.max_directory_entries + 1,
                allowed: limits.max_directory_entries,
            },
        );
    }
    let mut entries: Vec<DebrisEntry> = Vec::new();
    let mut i: usize = 0;
    assert(entries_view(entries@) =~= Seq::<DebrisView>::empty());
    while i < listing.len()
        invariant
            all == siblings_view(listing@),
            i <= listing@.len(),
            entries_view(entries@) == debris_among(store@, present, all, i as nat),
        decreases listing.len() - i,
    {
        assert(all[i as int] == listing@[i as int]@);
        if let Some(kind) = classify(store, present, &listing[i]) {
            insert_entry(&mut entries, DebrisEntry { name: copy_name(&listing[i].name), kind });
        }
        i = i + 1;
    }
    Ok(DebrisReport { entries })
}

/// [`debris_report_with_limits`] under the default limits.
pub fn debris_report(store: &[u8], present: bool, listing: &Vec<SiblingName>) -> (r: Result<
    DebrisReport,
    ReadAdmissionError,
>)
    ensures
        ({
            let all = siblings_view(listing@);
            let limits = crate::store::open::default_limits();
            match r {
                Ok(report) => all.len() <= limits.max_directory_entries && entries_view(
                    report.entries@,
                ) == debris_among(store@, present, all, all.len()),
                Err(e) => all.len() > limits.max_directory_entries && e
                    == (ReadAdmissionError::TooManyDirectoryEntries {
                    actual: (limits.max_directory_entries + 1) as u64,
                    allowed: limits.max_directory_entries,
                }),
            }
        }),
{
    debris_report_with_limits(store, present, listing, ReadLimits::default())
}

/// Views of names.
pub open spec fn names_view(names: Seq<Vec<u8>>) -> Seq<Seq<u8>> {
    Seq::new(names.len(), |i: int| names[i]@)
}

proof fn lemma_name_inserted(all: Seq<Seq<u8>>, e: Seq<u8>, k: int)
    requires
        0 <= k <= all.len(),
        k == 0 || !bytes::lex_lt(e, all[k - 1]),
        forall|i: int| k <= i < all.len() ==> bytes::lex_lt(e, #[trigger] all[i]),
    ensures
        name_inserted(all, e) == all.insert(k, e),
    decreases all.len(),
{
    if k < all.len() {
        lemma_name_inserted(all.drop_last(), e, k);
        assert(name_inserted(all, e) =~= all.insert(k, e));
    } else {
        assert(all.insert(k, e) =~= all.push(e));
    }
}

fn insert_name(all: &mut Vec<Vec<u8>>, e: Vec<u8>)
    ensures
        names_view(final(all)@) == name_inserted(names_view(old(all)@), e@),
{
    let ghost before = names_view(all@);
    let ghost held = all@;
    let ghost v = e@;
    let mut k: usize = all.len();
    while k > 0 && bytes::bytes_lt(e.as_slice(), all[k - 1].as_slice())
        invariant
            all@ == held,
            before == names_view(held),
            v == e@,
            k <= all@.len(),
            forall|i: int| k <= i < before.len() ==> bytes::lex_lt(v, #[trigger] before[i]),
        decreases k,
    {
        assert(before[k - 1] == held[k - 1]@);
        k = k - 1;
    }
    all.insert(k, e);
    proof {
        if k > 0 {
            assert(before[k - 1] == held[k - 1]@);
        }
        lemma_name_inserted(before, v, k as int);
        assert(names_view(all@) =~= before.insert(k as int, v));
    }
}

/// The names that refuse to create a store: an interrupted protocol may own them.
pub fn names_refusing_creation(
    store: &[u8],
    present: bool,
    taken: bool,
    listing: &Vec<SiblingName>,
    limits: ReadLimits,
) -> (r: Result<Vec<Vec<u8>>, ReadAdmissionError>)
    ensures
        ({
            let all = siblings_view(listing@);
            match r {
                Ok(found) => all.len() <= limits.max_directory_entries && names_view(found@)
                    == refusing_among(store@, present, taken, all, all.len()),
                Err(e) => all.len() > limits.max_directory_entries && e
                    == (ReadAdmissionError::TooManyDirectoryEntries {
                    actual: (limits.max_directory_entries + 1) as u64,
                    allowed: limits.max_directory_entries,
                }),
            }
        }),
{
    let ghost all = siblings_view(listing@);
    if listing.len() as u64 > limits.max_directory_entries {
        return Err(
            ReadAdmissionError::TooManyDirectoryEntries {
                actual: limits.max_directory_entries + 1,
                allowed: limits.max_directory_entries,
            },
        );
    }
    let wal = with_suffix(store, "-wal");
    let mut found: Vec<Vec<u8>> = Vec::new();
    let mut i: usize = 0;
    assert(names_view(found@) =~= Seq::<Seq<u8>>::empty());
    while i < listing.len()
        invariant
            all == siblings_view(listing@),
            wal@ == store@ + encode_utf8("-wal"@),
            i <= listing@.len(),
            names_view(found@) == refusing_among(store@, present, taken, all, i as nat),
        decreases listing.len() - i,
    {
        assert(all[i as int] == listing@[i as int]@);
        let refuses = match classify(store, present, &listing[i]) {
            Some(kind) => kind != DebrisKind::CreationStaging,
            None => !taken && listing[i].is_file && bytes::bytes_eq(
                listing[i].name.as_slice(),
                wal.as_slice(),
            ),
        };
        if refuses {
            insert_name(&mut found, copy_name(&listing[i].name));
        }
        i = i + 1;
    }
    Ok(found)
}

/// A store beside its own protocol names never gets one that another store would take for its own:
/// no name a store's protocol uses is admitted as a store name.
pub proof fn lemma_protocol_names_reserved(store: Seq<u8>, name: Seq<u8>)
    requires
        store.len() > 0,
        name == store + encode_utf8("-wal"@) || name == store + encode_utf8("-tmp"@) || name == store
            + encode_utf8(".reclaiming"@) || name == store + encode_utf8(".reclaimed"@) || name
            == store + encode_utf8(".reclaim-candidate"@) || name == store
            + encode_utf8(".reclaim-candidate.tmp"@) || instance_of(
            store,
            name,
            encode_utf8(".publish-"@),
        ) || instance_of(store, name, encode_utf8(".creating-"@)) || instance_of(
            store,
            name,
            encode_utf8(".backing-up-"@),
        ) || instance_of(store, name, encode_utf8(".restoring-"@)),
    ensures
        reserved(name),
{
    lemma_ends(store, encode_utf8("-wal"@));
    lemma_ends(store, encode_utf8("-tmp"@));
    lemma_ends(store, encode_utf8(".reclaiming"@));
    lemma_ends(store, encode_utf8(".reclaimed"@));
    lemma_ends(store, encode_utf8(".reclaim-candidate"@));
    lemma_ends(store, encode_utf8(".reclaim-candidate.tmp"@));
    let m = store.len() as int;
    if instance_of(store, name, encode_utf8(".publish-"@)) {
        assert(instance(name.subrange(m, name.len() as int), encode_utf8(".publish-"@)));
    }
    if instance_of(store, name, encode_utf8(".creating-"@)) {
        assert(instance(name.subrange(m, name.len() as int), encode_utf8(".creating-"@)));
    }
    if instance_of(store, name, encode_utf8(".backing-up-"@)) {
        assert(instance(name.subrange(m, name.len() as int), encode_utf8(".backing-up-"@)));
    }
    if instance_of(store, name, encode_utf8(".restoring-"@)) {
        assert(instance(name.subrange(m, name.len() as int), encode_utf8(".restoring-"@)));
    }
}

proof fn lemma_ends(a: Seq<u8>, b: Seq<u8>)
    ensures
        bytes::ends_with(a + b, b),
{
    assert((a + b).subrange(a.len() as int, (a + b).len() as int) =~= b);
}

} // verus!
