//! Laws of the names beside a store: what is listed as debris, and what refuses a creation.

use crate::bytes;
use crate::store::debris;
use crate::store::debris::{DebrisKind, DebrisView, SiblingView};
use crate::store::lifecycle;
use crate::store::names;
use crate::text;
use vstd::prelude::*;
use vstd::utf8::*;

verus! {

/// Whether no entry comes after one whose name sorts behind it.
pub open spec fn entries_ordered(d: Seq<DebrisView>) -> bool {
    forall|i: int, j: int|
        0 <= i < j < d.len() ==> !bytes::lex_lt(
            (#[trigger] d[j]).name,
            (#[trigger] d[i]).name,
        )
}

/// Whether no name comes after one that sorts behind it.
pub open spec fn names_ordered(d: Seq<Seq<u8>>) -> bool {
    forall|i: int, j: int|
        0 <= i < j < d.len() ==> !bytes::lex_lt(#[trigger] d[j], #[trigger] d[i])
}

proof fn lemma_not_after(a: Seq<u8>, b: Seq<u8>, c: Seq<u8>)
    requires
        !bytes::lex_lt(b, a),
        !bytes::lex_lt(c, b),
    ensures
        !bytes::lex_lt(c, a),
{
    if bytes::lex_lt(c, a) {
        bytes::lemma_lex_total(b, c);
        bytes::lemma_lex_total(a, b);
        if a != b {
            bytes::lemma_lex_transitive(c, a, b);
        }
    }
}

proof fn lemma_entry_inserted(d: Seq<DebrisView>, e: DebrisView)
    requires
        entries_ordered(d),
    ensures
        entries_ordered(debris::entry_inserted(d, e)),
        debris::entry_inserted(d, e).to_multiset() == d.to_multiset().insert(e),
    decreases d.len(),
{
    broadcast use vstd::seq_lib::group_to_multiset_ensures;
    let r = debris::entry_inserted(d, e);
    if d.len() == 0 || !bytes::lex_lt(e.name, d.last().name) {
        assert(r == d.push(e));
        assert forall|i: int, j: int| 0 <= i < j < r.len() implies !bytes::lex_lt(
            (#[trigger] r[j]).name,
            (#[trigger] r[i]).name,
        ) by {
            if j == d.len() && i < d.len() - 1 {
                assert(!bytes::lex_lt(d[d.len() - 1].name, d[i].name));
                lemma_not_after(d[i].name, d.last().name, e.name);
            }
        }
    } else {
        let front = d.drop_last();
        lemma_entry_inserted(front, e);
        let f = debris::entry_inserted(front, e);
        assert(d == front.push(d.last()));
        assert(r == f.push(d.last()));
        assert(r.to_multiset() =~= d.to_multiset().insert(e));
        assert forall|i: int, j: int| 0 <= i < j < r.len() implies !bytes::lex_lt(
            (#[trigger] r[j]).name,
            (#[trigger] r[i]).name,
        ) by {
            if j == f.len() {
                assert(f.to_multiset().contains(f[i]));
                assert(front.to_multiset().insert(e).contains(f[i]));
                if f[i] == e {
                    bytes::lemma_lex_irreflexive(e.name);
                    if bytes::lex_lt(d.last().name, e.name) {
                        bytes::lemma_lex_transitive(e.name, d.last().name, e.name);
                    }
                } else {
                    assert(front.to_multiset().contains(f[i]));
                    assert(front.contains(f[i]));
                    let k = choose|k: int| 0 <= k < front.len() && front[k] == f[i];
                    assert(d[k] == f[i] && d[d.len() - 1] == d.last());
                }
            } else {
                assert(r[i] == f[i] && r[j] == f[j]);
            }
        }
    }
}

proof fn lemma_name_inserted(d: Seq<Seq<u8>>, e: Seq<u8>)
    requires
        names_ordered(d),
    ensures
        names_ordered(debris::name_inserted(d, e)),
        debris::name_inserted(d, e).to_multiset() == d.to_multiset().insert(e),
    decreases d.len(),
{
    broadcast use vstd::seq_lib::group_to_multiset_ensures;
    let r = debris::name_inserted(d, e);
    if d.len() == 0 || !bytes::lex_lt(e, d.last()) {
        assert(r == d.push(e));
        assert forall|i: int, j: int| 0 <= i < j < r.len() implies !bytes::lex_lt(
            #[trigger] r[j],
            #[trigger] r[i],
        ) by {
            if j == d.len() && i < d.len() - 1 {
                assert(!bytes::lex_lt(d[d.len() - 1], d[i]));
                lemma_not_after(d[i], d.last(), e);
            }
        }
    } else {
        let front = d.drop_last();
        lemma_name_inserted(front, e);
        let f = debris::name_inserted(front, e);
        assert(d == front.push(d.last()));
        assert(r == f.push(d.last()));
        assert(r.to_multiset() =~= d.to_multiset().insert(e));
        assert forall|i: int, j: int| 0 <= i < j < r.len() implies !bytes::lex_lt(
            #[trigger] r[j],
            #[trigger] r[i],
        ) by {
            if j == f.len() {
                assert(f.to_multiset().contains(f[i]));
                assert(front.to_multiset().insert(e).contains(f[i]));
                if f[i] == e {
                    bytes::lemma_lex_irreflexive(e);
                    if bytes::lex_lt(d.last(), e) {
                        bytes::lemma_lex_transitive(e, d.last(), e);
                    }
                } else {
                    assert(front.to_multiset().contains(f[i]));
                    assert(front.contains(f[i]));
                    let k = choose|k: int| 0 <= k < front.len() && front[k] == f[i];
                    assert(d[k] == f[i] && d[d.len() - 1] == d.last());
                }
            } else {
                assert(r[i] == f[i] && r[j] == f[j]);
            }
        }
    }
}

/// What a directory's listing reports as debris: each name that has a kind, with that kind, as often
/// as it was listed, sorted by name; and nothing else.
pub proof fn lemma_debris(store: Seq<u8>, present: bool, listing: Seq<SiblingView>, n: nat)
    requires
        n <= listing.len(),
    ensures
        ({
            let out = debris::debris_among(store, present, listing, n);
            &&& entries_ordered(out)
            &&& out.to_multiset() == listing.take(n as int).filter_map(
                |e: SiblingView|
                    match debris::debris_kind(store, present, e) {
                        Some(kind) => Some(DebrisView { name: e.name, kind }),
                        None => None,
                    },
            ).to_multiset()
        }),
    decreases n,
{
    broadcast use vstd::seq_lib::group_to_multiset_ensures;
    let pick = |e: SiblingView|
        match debris::debris_kind(store, present, e) {
            Some(kind) => Some(DebrisView { name: e.name, kind }),
            None => None,
        };
    let now = listing.take(n as int);
    if n > 0 {
        let k = (n - 1) as nat;
        lemma_debris(store, present, listing, k);
        let before = debris::debris_among(store, present, listing, k);
        assert(now.drop_last() =~= listing.take(k as int));
        assert(now.last() == listing[n - 1]);
        if let Some(kind) = debris::debris_kind(store, present, listing[n - 1]) {
            let e = DebrisView { name: listing[n - 1].name, kind };
            lemma_entry_inserted(before, e);
            let rest = listing.take(k as int).filter_map(pick);
            assert(rest + seq![e] =~= rest.push(e));
        }
    } else {
        assert(now =~= Seq::<SiblingView>::empty());
    }
}

/// What refuses a creation: each name beside an absent store that is debris of anything but a staged
/// birth, and the log of a store that is gone, as often as it was listed, sorted; and nothing else.
pub proof fn lemma_refusing(
    store: Seq<u8>,
    present: bool,
    taken: bool,
    listing: Seq<SiblingView>,
    n: nat,
)
    requires
        n <= listing.len(),
    ensures
        ({
            let out = debris::refusing_among(store, present, taken, listing, n);
            &&& names_ordered(out)
            &&& out.to_multiset() == listing.take(n as int).filter(
                |e: SiblingView|
                    {
                        let kind = debris::debris_kind(store, present, e);
                        ||| kind is Some && kind->0 != DebrisKind::CreationStaging
                        ||| kind is None && !taken && e.is_file && e.name == store + encode_utf8(
                            "-wal"@,
                        )
                    },
            ).map_values(|e: SiblingView| e.name).to_multiset()
        }),
    decreases n,
{
    broadcast use vstd::seq_lib::group_to_multiset_ensures;
    reveal(Seq::filter);
    let keep = |e: SiblingView|
        {
            let kind = debris::debris_kind(store, present, e);
            ||| kind is Some && kind->0 != DebrisKind::CreationStaging
            ||| kind is None && !taken && e.is_file && e.name == store + encode_utf8("-wal"@)
        };
    let name = |e: SiblingView| e.name;
    let now = listing.take(n as int);
    if n > 0 {
        let k = (n - 1) as nat;
        lemma_refusing(store, present, taken, listing, k);
        let before = debris::refusing_among(store, present, taken, listing, k);
        assert(now.drop_last() =~= listing.take(k as int));
        assert(now.last() == listing[n - 1]);
        if debris::refuses_creation(store, present, taken, listing[n - 1]) {
            lemma_name_inserted(before, listing[n - 1].name);
            let rest = listing.take(k as int).filter(keep);
            assert(rest.push(listing[n - 1]).map_values(name) =~= rest.map_values(name).push(
                listing[n - 1].name,
            ));
        }
    } else {
        assert(now =~= Seq::<SiblingView>::empty());
        assert(Seq::<SiblingView>::empty().map_values(name) =~= Seq::<Seq<u8>>::empty());
    }
}

/// A name behind another, and what a marker's instance leaves of it.
proof fn lemma_behind(store: Seq<u8>, suffix: Seq<u8>)
    ensures
        bytes::starts_with(store + suffix, store),
        (store + suffix).subrange(store.len() as int, (store + suffix).len() as int) == suffix,
{
    assert((store + suffix).subrange(0, store.len() as int) =~= store);
    assert((store + suffix).subrange(store.len() as int, (store + suffix).len() as int)
        =~= suffix);
}

/// Names behind a store's name are the same only where what follows is.
proof fn lemma_apart(store: Seq<u8>, a: Seq<u8>, b: Seq<u8>)
    requires
        store + a == store + b,
    ensures
        a == b,
{
    lemma_behind(store, a);
    lemma_behind(store, b);
}

/// What a store's own protocol writes beside it is told apart by its name: the scratch directory of
/// a merge, and the files of a reclaim. An anchor beside a store that is absent is no debris: it is
/// what the store is restored from.
pub proof fn lemma_protocol_kinds(store: Seq<u8>, present: bool)
    ensures
        debris::debris_kind(
            store,
            present,
            SiblingView { name: store + encode_utf8("-tmp"@), is_file: false, is_dir: true },
        ) == Some(DebrisKind::MergeScratch),
        debris::debris_kind(
            store,
            present,
            SiblingView { name: store + encode_utf8(".reclaiming"@), is_file: true, is_dir: false },
        ) == Some(DebrisKind::ReclaimStaging),
        debris::debris_kind(
            store,
            present,
            SiblingView { name: store + encode_utf8(".reclaimed"@), is_file: true, is_dir: false },
        ) == if present {
            Some(DebrisKind::ReclaimAnchor)
        } else {
            None
        },
        debris::debris_kind(
            store,
            present,
            SiblingView {
                name: store + encode_utf8(".reclaim-candidate"@),
                is_file: true,
                is_dir: false,
            },
        ) == Some(DebrisKind::ReclaimCandidate),
        debris::debris_kind(
            store,
            present,
            SiblingView {
                name: store + encode_utf8(".reclaim-candidate.tmp"@),
                is_file: true,
                is_dir: false,
            },
        ) == Some(DebrisKind::ReclaimCandidate),
{
    reveal_strlit(".reclaiming");
    reveal_strlit(".reclaimed");
    reveal_strlit(".reclaim-candidate");
    reveal_strlit(".reclaim-candidate.tmp");
    is_ascii_chars_encode_utf8(".reclaiming"@);
    is_ascii_chars_encode_utf8(".reclaimed"@);
    is_ascii_chars_encode_utf8(".reclaim-candidate"@);
    is_ascii_chars_encode_utf8(".reclaim-candidate.tmp"@);
    let a = encode_utf8(".reclaiming"@);
    let b = encode_utf8(".reclaimed"@);
    let c = encode_utf8(".reclaim-candidate"@);
    let d = encode_utf8(".reclaim-candidate.tmp"@);
    assert(a.len() == 11 && b.len() == 10 && c.len() == 18 && d.len() == 22);
    if store + a == store + b {
        lemma_apart(store, a, b);
    }
    if store + c == store + a {
        lemma_apart(store, c, a);
    }
    if store + c == store + b {
        lemma_apart(store, c, b);
    }
    if store + d == store + a {
        lemma_apart(store, d, a);
    }
    if store + d == store + b {
        lemma_apart(store, d, b);
    }
}

/// What follows a marker in a staging name: a process and a serial number.
proof fn lemma_numbered(process: u32, serial: u64)
    ensures
        debris::numbered(
            text::decimal(process as nat) + seq![45u8] + text::decimal(serial as nat),
        ),
{
    let a = text::decimal(process as nat);
    let b = text::decimal(serial as nat);
    let s = a + seq![45u8] + b;
    names::lemma_decimal_value(process as nat);
    names::lemma_decimal_value(serial as nat);
    text::lemma_decimal_digits(process as nat);
    text::lemma_decimal_digits(serial as nat);
    let d = a.len() as int;
    assert(s.take(d) =~= a);
    assert(s.skip(d + 1) =~= b);
    assert(debris::splits_at(s, d));
}

/// A name that differs from a marker behind the store's name is none of the marker's.
proof fn lemma_other_marker(store: Seq<u8>, rest: Seq<u8>, marker: Seq<u8>, k: int)
    requires
        0 <= k < marker.len(),
        k < rest.len(),
        rest[k] != marker[k],
    ensures
        !debris::instance_of(store, store + rest, marker),
        store + rest != store + marker,
        !bytes::starts_with(store + rest, store + marker),
{
    lemma_behind(store, rest);
    if bytes::starts_with(rest, marker) {
        assert(rest.subrange(0, marker.len() as int)[k] == rest[k]);
    }
    let name = store + rest;
    let other = store + marker;
    assert(name[store.len() + k] == rest[k]);
    assert(other[store.len() + k] == marker[k]);
    if bytes::starts_with(name, other) {
        assert(name.subrange(0, other.len() as int)[store.len() + k] == name[store.len() + k]);
    }
}

/// A staging name is told by its marker: of a birth, of a backup or a restore, or of a pending
/// publication, whatever the process and the serial number.
pub proof fn lemma_staging_kinds(store: Seq<u8>, present: bool, process: u32, serial: u64)
    ensures
        debris::debris_kind(
            store,
            present,
            SiblingView {
                name: lifecycle::staging_name(
                    store,
                    encode_utf8(".creating-"@),
                    process,
                    serial,
                ),
                is_file: true,
                is_dir: false,
            },
        ) == Some(DebrisKind::CreationStaging),
        debris::debris_kind(
            store,
            present,
            SiblingView {
                name: lifecycle::staging_name(
                    store,
                    encode_utf8(".backing-up-"@),
                    process,
                    serial,
                ),
                is_file: true,
                is_dir: false,
            },
        ) == Some(DebrisKind::ArtifactStaging),
        debris::debris_kind(
            store,
            present,
            SiblingView {
                name: lifecycle::staging_name(
                    store,
                    encode_utf8(".restoring-"@),
                    process,
                    serial,
                ),
                is_file: true,
                is_dir: false,
            },
        ) == Some(DebrisKind::ArtifactStaging),
        debris::debris_kind(
            store,
            present,
            SiblingView {
                name: lifecycle::staging_name(
                    store,
                    encode_utf8(".publish-"@),
                    process,
                    serial,
                ),
                is_file: true,
                is_dir: false,
            },
        ) == Some(DebrisKind::PendingPublish),
{
    lemma_numbered(process, serial);
    lemma_staged(store, encode_utf8(".creating-"@), process, serial);
    lemma_staged(store, encode_utf8(".backing-up-"@), process, serial);
    lemma_staged(store, encode_utf8(".restoring-"@), process, serial);
    lemma_staged(store, encode_utf8(".publish-"@), process, serial);
    lemma_markers();
    let number = text::decimal(process as nat) + seq![45u8] + text::decimal(serial as nat);
    lemma_no_other(store, encode_utf8(".creating-"@) + number);
    lemma_no_other(store, encode_utf8(".backing-up-"@) + number);
    lemma_no_other(store, encode_utf8(".publish-"@) + number);
    let r = encode_utf8(".restoring-"@) + number;
    lemma_other_marker(store, r, encode_utf8("-wal"@), 0);
    lemma_other_marker(store, r, encode_utf8("-tmp"@), 0);
    lemma_other_marker(store, r, encode_utf8(".reclaiming"@), 3);
    lemma_other_marker(store, r, encode_utf8(".reclaimed"@), 3);
    lemma_other_marker(store, r, encode_utf8(".reclaim-candidate"@), 3);
    lemma_other_marker(store, r, encode_utf8(".reclaim-candidate.tmp"@), 3);
    lemma_other_marker(store, r, encode_utf8(".publish-"@), 1);
    lemma_other_marker(store, r, encode_utf8(".creating-"@), 1);
    let c = encode_utf8(".creating-"@) + number;
    let b = encode_utf8(".backing-up-"@) + number;
    lemma_other_marker(store, c, encode_utf8(".publish-"@), 1);
    lemma_other_marker(store, b, encode_utf8(".publish-"@), 1);
    lemma_other_marker(store, b, encode_utf8(".creating-"@), 1);
}

/// The bytes by which markers differ.
proof fn lemma_markers()
    ensures
        encode_utf8(".creating-"@)[0] == 46,
        encode_utf8(".creating-"@)[1] == 99,
        encode_utf8(".creating-"@).len() == 10,
        encode_utf8(".backing-up-"@)[0] == 46,
        encode_utf8(".backing-up-"@)[1] == 98,
        encode_utf8(".backing-up-"@).len() == 12,
        encode_utf8(".restoring-"@)[0] == 46,
        encode_utf8(".restoring-"@)[1] == 114,
        encode_utf8(".restoring-"@)[3] == 115,
        encode_utf8(".restoring-"@).len() == 11,
        encode_utf8(".publish-"@)[0] == 46,
        encode_utf8(".publish-"@)[1] == 112,
        encode_utf8(".publish-"@).len() == 9,
        encode_utf8("-wal"@)[0] == 45,
        encode_utf8("-wal"@).len() == 4,
        encode_utf8("-tmp"@)[0] == 45,
        encode_utf8("-tmp"@).len() == 4,
        encode_utf8(".reclaiming"@)[1] == 114,
        encode_utf8(".reclaiming"@)[3] == 99,
        encode_utf8(".reclaiming"@).len() == 11,
        encode_utf8(".reclaimed"@)[1] == 114,
        encode_utf8(".reclaimed"@)[3] == 99,
        encode_utf8(".reclaimed"@).len() == 10,
        encode_utf8(".reclaim-candidate"@)[1] == 114,
        encode_utf8(".reclaim-candidate"@)[3] == 99,
        encode_utf8(".reclaim-candidate"@).len() == 18,
        encode_utf8(".reclaim-candidate.tmp"@)[1] == 114,
        encode_utf8(".reclaim-candidate.tmp"@)[3] == 99,
        encode_utf8(".reclaim-candidate.tmp"@).len() == 22,
{
    reveal_strlit(".creating-");
    reveal_strlit(".backing-up-");
    reveal_strlit(".restoring-");
    reveal_strlit(".publish-");
    reveal_strlit("-wal");
    reveal_strlit("-tmp");
    reveal_strlit(".reclaiming");
    reveal_strlit(".reclaimed");
    reveal_strlit(".reclaim-candidate");
    reveal_strlit(".reclaim-candidate.tmp");
    is_ascii_chars_encode_utf8(".creating-"@);
    is_ascii_chars_encode_utf8(".backing-up-"@);
    is_ascii_chars_encode_utf8(".restoring-"@);
    is_ascii_chars_encode_utf8(".publish-"@);
    is_ascii_chars_encode_utf8("-wal"@);
    is_ascii_chars_encode_utf8("-tmp"@);
    is_ascii_chars_encode_utf8(".reclaiming"@);
    is_ascii_chars_encode_utf8(".reclaimed"@);
    is_ascii_chars_encode_utf8(".reclaim-candidate"@);
    is_ascii_chars_encode_utf8(".reclaim-candidate.tmp"@);
}

/// A staging name is an instance of its marker behind the store's name.
proof fn lemma_staged(store: Seq<u8>, marker: Seq<u8>, process: u32, serial: u64)
    ensures
        ({
            let number = text::decimal(process as nat) + seq![45u8] + text::decimal(
                serial as nat,
            );
            let name = lifecycle::staging_name(store, marker, process, serial);
            &&& name == store + (marker + number)
            &&& debris::instance_of(store, name, marker)
        }),
{
    let number = text::decimal(process as nat) + seq![45u8] + text::decimal(serial as nat);
    let name = lifecycle::staging_name(store, marker, process, serial);
    lemma_numbered(process, serial);
    assert(name =~= store + (marker + number));
    lemma_behind(store, marker + number);
    lemma_behind(marker, number);
}

/// A name whose second byte behind the store's name is none of a reclaim's is no final name's.
proof fn lemma_no_other(store: Seq<u8>, rest: Seq<u8>)
    requires
        rest.len() > 1,
        rest[0] == 46,
        rest[1] != 114,
    ensures
        store + rest != store + encode_utf8("-tmp"@),
        store + rest != store + encode_utf8(".reclaiming"@),
        store + rest != store + encode_utf8(".reclaimed"@),
        store + rest != store + encode_utf8(".reclaim-candidate"@),
        store + rest != store + encode_utf8(".reclaim-candidate.tmp"@),
        !bytes::starts_with(store + rest, store + encode_utf8("-wal"@)),
        !bytes::starts_with(store + rest, store + encode_utf8(".reclaiming"@)),
        !bytes::starts_with(store + rest, store + encode_utf8(".reclaimed"@)),
        !bytes::starts_with(store + rest, store + encode_utf8(".reclaim-candidate"@)),
        !bytes::starts_with(store + rest, store + encode_utf8(".reclaim-candidate.tmp"@)),
{
    lemma_markers();
    lemma_other_marker(store, rest, encode_utf8("-wal"@), 0);
    lemma_other_marker(store, rest, encode_utf8("-tmp"@), 0);
    lemma_other_marker(store, rest, encode_utf8(".reclaiming"@), 1);
    lemma_other_marker(store, rest, encode_utf8(".reclaimed"@), 1);
    lemma_other_marker(store, rest, encode_utf8(".reclaim-candidate"@), 1);
    lemma_other_marker(store, rest, encode_utf8(".reclaim-candidate.tmp"@), 1);
}

} // verus!
