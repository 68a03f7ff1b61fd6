//! What the payload codec promises of whole records.

use crate::bytes;
use crate::store::wire;
use crate::store::wire::WireError;
use crate::types;
use crate::types::{ContentView, PieceHash, Record, RecordView};
use vstd::prelude::*;

verus! {

/// Reordered sequences have the same elements.
pub proof fn lemma_same_elements(a: Seq<ContentView>, b: Seq<ContentView>)
    requires
        a.to_multiset() == b.to_multiset(),
    ensures
        a.len() == b.len(),
        forall|i: int| 0 <= i < a.len() ==> b.contains(#[trigger] a[i]),
        forall|i: int| 0 <= i < b.len() ==> a.contains(#[trigger] b[i]),
{
    broadcast use vstd::seq_lib::group_to_multiset_ensures;

    assert(a.to_multiset().len() == a.len() && b.to_multiset().len() == b.len());
    assert forall|i: int| 0 <= i < a.len() implies b.contains(#[trigger] a[i]) by {
        assert(a.contains(a[i]));
        assert(a.to_multiset().count(a[i]) > 0);
    }
    assert forall|i: int| 0 <= i < b.len() implies a.contains(#[trigger] b[i]) by {
        assert(b.contains(b[i]));
        assert(b.to_multiset().count(b[i]) > 0);
    }
}

/// Contents have one canonical order.
pub proof fn lemma_canonical_unique(a: Seq<ContentView>, b: Seq<ContentView>)
    requires
        types::names_ascending(a),
        types::names_ascending(b),
        a.to_multiset() == b.to_multiset(),
    ensures
        a == b,
    decreases a.len(),
{
    broadcast use vstd::seq_lib::group_to_multiset_ensures;

    lemma_same_elements(a, b);
    if a.len() > 0 {
        assert(b.contains(a[0]));
        assert(a.contains(b[0]));
        let k = choose|k: int| 0 <= k < b.len() && b[k] == a[0];
        let j = choose|j: int| 0 <= j < a.len() && a[j] == b[0];
        bytes::lemma_name_order(a[0].name, b[0].name, a[0].name);
        if k > 0 {
            assert(bytes::name_lt(b[0].name, b[k].name));
            if j > 0 {
                assert(bytes::name_lt(a[0].name, a[j].name));
            }
        }
        assert(a[0] == b[0]);
        let (x, y) = (a.drop_first(), b.drop_first());
        assert(a.remove(0) =~= x);
        assert(b.remove(0) =~= y);
        vstd::seq_lib::to_multiset_remove(a, 0);
        vstd::seq_lib::to_multiset_remove(b, 0);
        assert(x.to_multiset() =~= y.to_multiset());
        assert forall|p: int, q: int| 0 <= p < q < x.len() implies bytes::name_lt(
            (#[trigger] x[p]).name,
            (#[trigger] x[q]).name,
        ) by {
            assert(x[p] == a[p + 1] && x[q] == a[q + 1]);
        }
        assert forall|p: int, q: int| 0 <= p < q < y.len() implies bytes::name_lt(
            (#[trigger] y[p]).name,
            (#[trigger] y[q]).name,
        ) by {
            assert(y[p] == b[p + 1] && y[q] == b[q + 1]);
        }
        lemma_canonical_unique(x, y);
        assert(a =~= seq![a[0]] + x);
        assert(b =~= seq![b[0]] + y);
    } else {
        assert(a =~= b);
    }
}

/// No content is at fault exactly when each is free of fault.
pub proof fn lemma_contents_local_fault(
    contents: Seq<ContentView>,
    novel: Seq<(Seq<u8>, Seq<u8>)>,
)
    ensures
        wire::contents_local_fault(contents, novel) is None <==> forall|i: int|
            0 <= i < contents.len() ==> wire::content_fault(#[trigger] contents[i], novel) is None,
    decreases contents.len(),
{
    if contents.len() > 0 {
        let tail = contents.drop_first();
        lemma_contents_local_fault(tail, novel);
        if wire::contents_local_fault(contents, novel) is None {
            assert forall|i: int| 0 <= i < contents.len() implies wire::content_fault(
                #[trigger] contents[i],
                novel,
            ) is None by {
                if i > 0 {
                    assert(contents[i] == tail[i - 1]);
                }
            }
        } else if forall|i: int|
            0 <= i < contents.len() ==> wire::content_fault(
                #[trigger] contents[i],
                novel,
            ) is None {
            assert(wire::content_fault(contents[0], novel) is None);
            assert forall|i: int| 0 <= i < tail.len() implies wire::content_fault(
                #[trigger] tail[i],
                novel,
            ) is None by {
                assert(tail[i] == contents[i + 1]);
            }
        }
    }
}

/// Reordering contents does not change whether a record may be logged.
pub proof fn lemma_fault_of_reordered(
    r: RecordView,
    sorted: Seq<ContentView>,
    novel: Seq<(Seq<u8>, Seq<u8>)>,
)
    requires
        types::canonical_of(r.contents, sorted),
        wire::wal_fault(r, novel) is None,
    ensures
        wire::wal_fault(
            RecordView { id: r.id, contents: sorted, attrs: r.attrs },
            novel,
        ) is None,
{
    lemma_same_elements(r.contents, sorted);
    types::lemma_contents_fault(r.contents);
    types::lemma_contents_fault(sorted);
    assert(types::names_unique(sorted)) by {
        assert forall|i: int| 0 <= i < sorted.len() implies (#[trigger] sorted[i]).name.len()
            > 0 by {
            assert(r.contents.contains(sorted[i]));
            let k = choose|k: int| 0 <= k < r.contents.len() && r.contents[k] == sorted[i];
            assert(r.contents[k].name.len() > 0);
        }
        assert forall|i: int, j: int| 0 <= i < j < sorted.len() implies (
        #[trigger] sorted[i]).name != (#[trigger] sorted[j]).name by {
            bytes::lemma_name_order(sorted[i].name, sorted[j].name, sorted[j].name);
            assert(bytes::name_lt(sorted[i].name, sorted[j].name));
        }
    }
    assert(!wire::has_zero_piece(sorted)) by {
        if wire::has_zero_piece(sorted) {
            let (i, j) = choose|i: int, j: int|
                0 <= i < sorted.len() && 0 <= j < sorted[i].ops.len() && wire::op_is_zero_piece(
                    #[trigger] sorted[i].ops[j],
                );
            assert(r.contents.contains(sorted[i]));
            let k = choose|k: int| 0 <= k < r.contents.len() && r.contents[k] == sorted[i];
            assert(wire::op_is_zero_piece(r.contents[k].ops[j]));
        }
    }
    lemma_contents_local_fault(r.contents, novel);
    lemma_contents_local_fault(sorted, novel);
    assert forall|i: int| 0 <= i < sorted.len() implies wire::content_fault(
        #[trigger] sorted[i],
        novel,
    ) is None by {
        assert(r.contents.contains(sorted[i]));
        let k = choose|k: int| 0 <= k < r.contents.len() && r.contents[k] == sorted[i];
        assert(wire::content_fault(r.contents[k], novel) is None);
    }
}

/// What the encoder put down, the decoder gives back: the record with its contents in canonical
/// order, and the same novel pieces.
pub proof fn lemma_encoded_record_reads_back(
    payload: Seq<u8>,
    r: Record,
    novel: Seq<(PieceHash, Vec<u8>)>,
)
    requires
        wire::encodes(payload, r@, wire::novel_view(novel)),
        wire::wal_fault(r@, wire::novel_view(novel)) is None,
        wire::all_identified(r@.contents),
        payload.len() <= usize::MAX,
    ensures
        exists|sorted: Seq<ContentView>| #[trigger]
            types::canonical_of(r@.contents, sorted) && wire::read_record(payload) == Ok::<
                (RecordView, Seq<(Seq<u8>, Seq<u8>)>),
                WireError,
            >(
                (
                    RecordView { id: r@.id, contents: sorted, attrs: r@.attrs },
                    wire::novel_view(novel),
                ),
            ),
        types::names_ascending(r@.contents) ==> wire::read_record(payload) == Ok::<
            (RecordView, Seq<(Seq<u8>, Seq<u8>)>),
            WireError,
        >((r@, wire::novel_view(novel))),
{
    let nv = wire::novel_view(novel);
    let sorted = choose|sorted: Seq<ContentView>| #[trigger]
        types::canonical_of(r@.contents, sorted) && payload == wire::record_wire(
            RecordView { id: r@.id, contents: sorted, attrs: r@.attrs },
            nv,
        );
    let target = RecordView { id: r@.id, contents: sorted, attrs: r@.attrs };
    lemma_fault_of_reordered(r@, sorted, nv);
    lemma_same_elements(r@.contents, sorted);
    assert forall|i: int| 0 <= i < sorted.len() implies {
        &&& (#[trigger] sorted[i]).identity matches Some(d) && d.len() == 32
        &&& wire::ops_sized(sorted[i].ops)
    } by {
        assert(r@.contents.contains(sorted[i]));
        let k = choose|k: int| 0 <= k < r@.contents.len() && r@.contents[k] == sorted[i];
        let c = r.contents@[k];
        assert(r@.contents[k] == c@);
        assert(r@.contents[k].identity is Some);
        assert forall|j: int| 0 <= j < c@.ops.len() implies (
        #[trigger] c@.ops[j] matches types::OpView::Piece { hash, len } ==> hash.len() == 32
            && len > 0) by {
            assert(c@.ops[j] == c.ops@[j]@);
            assert(!wire::op_is_zero_piece(r@.contents[k].ops[j]));
        }
    }
    assert forall|i: int| 0 <= i < nv.len() implies (#[trigger] nv[i]).0.len() == 32 by {
        assert(nv[i].0 == novel[i].0@);
    }
    wire::lemma_record_round_trip(target, nv);
    if types::names_ascending(r@.contents) {
        lemma_canonical_unique(r@.contents, sorted);
        assert(target == r@);
    }
}

} // verus!
