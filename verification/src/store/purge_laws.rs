//! What a refold copies: the pieces that shown records name, each once, in the order they lay in,
//! and not a byte more.

use crate::fold;
use crate::fold::{BlockView, FoldView, Loc};
use crate::part;
use crate::part::PartView;
use crate::store::engine;
use crate::store::engine::StoreView;
use crate::store::liveness;
use crate::store::manifest::ManifestView;
use crate::store::publish::EncodedPart;
use crate::store::punch;
use crate::store::punch_laws;
use crate::store::read;
use crate::store::read::Verdict;
use crate::store::refold;
use crate::store::refold::{RefoldError, RefoldView};
use crate::store::refold_laws;
use crate::store::sum_laws;
use crate::store::writer;
use crate::store::writer::WriterView;
use crate::types::{ContentView, OpView};
use vstd::prelude::*;

verus! {

// ---------------------------------------------------------------------------------------------
// Which pieces.
// ---------------------------------------------------------------------------------------------
/// Whether a list has an entry for a piece.
pub open spec fn lists(d: Seq<(Seq<u8>, Loc)>, h: Seq<u8>) -> bool {
    exists|i: int| 0 <= i < d.len() && (#[trigger] d[i]).0 == h
}

/// Whether no piece has two entries.
pub open spec fn each_once(d: Seq<(Seq<u8>, Loc)>) -> bool {
    forall|i: int, j: int|
        0 <= i < j < d.len() ==> (#[trigger] d[i]).0 != (#[trigger] d[j]).0
}

/// Whether step `k` of content `c` of the record shown for an id is a piece.
pub open spec fn names_piece(
    parts: Seq<PartView>,
    id: Seq<char>,
    c: int,
    k: int,
    h: Seq<u8>,
) -> bool {
    match read::located(parts, id) {
        Some((p, row)) => {
            let contents = parts[p as int].rows[row as int].record->0.contents;
            &&& 0 <= c < contents.len()
            &&& 0 <= k < contents[c].ops.len()
            &&& (contents[c].ops[k] matches OpView::Piece { hash, len: _ } && hash == h)
        },
        None => false,
    }
}

/// Whether some shown record names a piece.
pub open spec fn named(parts: Seq<PartView>, h: Seq<u8>) -> bool {
    exists|id: Seq<char>, c: int, k: int| #[trigger] names_piece(parts, id, c, k, h)
}

proof fn lemma_found(d: Seq<(Seq<u8>, Loc)>, h: Seq<u8>)
    ensures
        part::find_loc(d, h) is Some <==> lists(d, h),
{
    writer::lemma_find_loc(d, h);
    if let Some(loc) = part::find_loc(d, h) {
        let i = choose|i: int| 0 <= i < d.len() && #[trigger] d[i] == (h, loc);
        assert(d[i].0 == h);
    }
}

proof fn lemma_pushed(d: Seq<(Seq<u8>, Loc)>, h: Seq<u8>, loc: Loc)
    requires
        each_once(d),
        !lists(d, h),
    ensures
        each_once(d.push((h, loc))),
        forall|x: Seq<u8>| #[trigger] lists(d.push((h, loc)), x) <==> lists(d, x) || x == h,
{
    let e = d.push((h, loc));
    assert forall|x: Seq<u8>| #[trigger] lists(e, x) <==> lists(d, x) || x == h by {
        if lists(e, x) {
            let i = choose|i: int| 0 <= i < e.len() && (#[trigger] e[i]).0 == x;
            if i < d.len() {
                assert(d[i].0 == x);
            }
        }
        if lists(d, x) {
            let i = choose|i: int| 0 <= i < d.len() && (#[trigger] d[i]).0 == x;
            assert(e[i].0 == x);
        }
        assert(e[d.len() as int].0 == h);
    }
}

spec fn ops_name(ops: Seq<OpView>, n: nat, h: Seq<u8>) -> bool {
    exists|k: int|
        0 <= k < n && (#[trigger] ops[k] matches OpView::Piece { hash, len: _ } && hash == h)
}

proof fn lemma_wanted_ops(
    dict: Seq<(Seq<u8>, Loc)>,
    ops: Seq<OpView>,
    n: nat,
    acc: Seq<(Seq<u8>, Loc)>,
)
    requires
        n <= ops.len(),
        each_once(acc),
        refold::wanted_ops(dict, ops, n, acc) is Some,
    ensures
        ({
            let out = refold::wanted_ops(dict, ops, n, acc)->0;
            &&& each_once(out)
            &&& forall|h: Seq<u8>| #[trigger] lists(out, h) <==> lists(acc, h) || ops_name(ops, n, h)
        }),
    decreases n,
{
    if n > 0 {
        let m = (n - 1) as nat;
        lemma_wanted_ops(dict, ops, m, acc);
        let before = refold::wanted_ops(dict, ops, m, acc)->0;
        let out = refold::wanted_ops(dict, ops, n, acc)->0;
        if let OpView::Piece { hash, len: _ } = ops[n - 1] {
            lemma_found(before, hash);
            if !lists(before, hash) {
                lemma_pushed(before, hash, part::find_loc(dict, hash)->0);
            }
        }
        assert forall|h: Seq<u8>| #[trigger] lists(out, h) <==> lists(acc, h) || ops_name(
            ops,
            n,
            h,
        ) by {
            assert(lists(before, h) <==> lists(acc, h) || ops_name(ops, m, h));
            if ops_name(ops, m, h) {
                let k = choose|k: int|
                    0 <= k < m && (#[trigger] ops[k] matches OpView::Piece { hash, len: _ }
                        && hash == h);
                assert(ops[k] is Piece);
            }
            if ops_name(ops, n, h) && !ops_name(ops, m, h) {
                let k = choose|k: int|
                    0 <= k < n && (#[trigger] ops[k] matches OpView::Piece { hash, len: _ }
                        && hash == h);
                assert(k == n - 1);
            }
            if let OpView::Piece { hash, len: _ } = ops[n - 1] {
                if hash == h {
                    assert(ops_name(ops, n, h));
                }
            }
        }
    }
}

spec fn contents_name(contents: Seq<ContentView>, n: nat, h: Seq<u8>) -> bool {
    exists|c: int|
        0 <= c < n && ops_name((#[trigger] contents[c]).ops, contents[c].ops.len(), h)
}

proof fn lemma_wanted_contents(
    dict: Seq<(Seq<u8>, Loc)>,
    contents: Seq<ContentView>,
    n: nat,
    acc: Seq<(Seq<u8>, Loc)>,
)
    requires
        n <= contents.len(),
        each_once(acc),
        refold::wanted_contents(dict, contents, n, acc) is Some,
    ensures
        ({
            let out = refold::wanted_contents(dict, contents, n, acc)->0;
            &&& each_once(out)
            &&& forall|h: Seq<u8>| #[trigger]
                lists(out, h) <==> lists(acc, h) || contents_name(contents, n, h)
        }),
    decreases n,
{
    if n > 0 {
        let m = (n - 1) as nat;
        lemma_wanted_contents(dict, contents, m, acc);
        let before = refold::wanted_contents(dict, contents, m, acc)->0;
        let out = refold::wanted_contents(dict, contents, n, acc)->0;
        let ops = contents[n - 1].ops;
        lemma_wanted_ops(dict, ops, ops.len(), before);
        assert forall|h: Seq<u8>| #[trigger] lists(out, h) <==> lists(acc, h) || contents_name(
            contents,
            n,
            h,
        ) by {
            assert(lists(out, h) <==> lists(before, h) || ops_name(ops, ops.len(), h));
            if contents_name(contents, m, h) {
                let c = choose|c: int|
                    0 <= c < m && ops_name((#[trigger] contents[c]).ops, contents[c].ops.len(), h);
                assert(ops_name(contents[c].ops, contents[c].ops.len(), h));
            }
            if contents_name(contents, n, h) && !contents_name(contents, m, h) {
                let c = choose|c: int|
                    0 <= c < n && ops_name((#[trigger] contents[c]).ops, contents[c].ops.len(), h);
                assert(c == n - 1);
            }
            if ops_name(ops, ops.len(), h) {
                assert(ops_name(contents[n - 1].ops, contents[n - 1].ops.len(), h));
            }
        }
    }
}

/// Whether a record shown from the first `n` rows of a part names a piece.
spec fn rows_name(parts: Seq<PartView>, p: int, n: nat, h: Seq<u8>) -> bool {
    exists|r: int|
        0 <= r < n && read::located(parts, (#[trigger] parts[p].rows[r]).id) == Some(
            (p as nat, r as nat),
        ) && contents_name(
            parts[p].rows[r].record->0.contents,
            parts[p].rows[r].record->0.contents.len(),
            h,
        )
}

proof fn lemma_wanted_rows(parts: Seq<PartView>, p: int, n: nat, acc: Seq<(Seq<u8>, Loc)>)
    requires
        part::parts_sound(parts),
        0 <= p < parts.len(),
        n <= parts[p].rows.len(),
        each_once(acc),
        refold::wanted_rows(parts, p, n, acc) is Some,
    ensures
        ({
            let out = refold::wanted_rows(parts, p, n, acc)->0;
            &&& each_once(out)
            &&& forall|h: Seq<u8>| #[trigger]
                lists(out, h) <==> lists(acc, h) || rows_name(parts, p, n, h)
        }),
    decreases n,
{
    if n > 0 {
        let m = (n - 1) as nat;
        lemma_wanted_rows(parts, p, m, acc);
        let before = refold::wanted_rows(parts, p, m, acc)->0;
        let out = refold::wanted_rows(parts, p, n, acc)->0;
        read::lemma_live_is_located(parts, p, n - 1);
        let contents = parts[p].rows[n - 1].record->0.contents;
        let live = read::verdict(parts, p, n - 1) == Verdict::Live;
        if live {
            lemma_wanted_contents(parts[p].pieces, contents, contents.len(), before);
        }
        assert forall|h: Seq<u8>| #[trigger] lists(out, h) <==> lists(acc, h) || rows_name(
            parts,
            p,
            n,
            h,
        ) by {
            assert(lists(before, h) <==> lists(acc, h) || rows_name(parts, p, m, h));
            if live {
                assert(lists(out, h) <==> lists(before, h) || contents_name(
                    contents,
                    contents.len(),
                    h,
                ));
            }
            if rows_name(parts, p, m, h) {
                let r = choose|r: int|
                    0 <= r < m && read::located(parts, (#[trigger] parts[p].rows[r]).id) == Some(
                        (p as nat, r as nat),
                    ) && contents_name(
                        parts[p].rows[r].record->0.contents,
                        parts[p].rows[r].record->0.contents.len(),
                        h,
                    );
                assert(read::located(parts, parts[p].rows[r].id) is Some);
            }
            if rows_name(parts, p, n, h) && !rows_name(parts, p, m, h) {
                let r = choose|r: int|
                    0 <= r < n && read::located(parts, (#[trigger] parts[p].rows[r]).id) == Some(
                        (p as nat, r as nat),
                    ) && contents_name(
                        parts[p].rows[r].record->0.contents,
                        parts[p].rows[r].record->0.contents.len(),
                        h,
                    );
                assert(r == n - 1);
            }
            if live && contents_name(contents, contents.len(), h) {
                assert(read::located(parts, parts[p].rows[n - 1].id) is Some);
                assert(rows_name(parts, p, n, h));
            }
        }
    }
}

proof fn lemma_wanted_parts(parts: Seq<PartView>, n: nat)
    requires
        part::parts_sound(parts),
        n <= parts.len(),
        refold::wanted(parts, n) is Some,
    ensures
        each_once(refold::wanted(parts, n)->0),
        forall|h: Seq<u8>| #[trigger]
            lists(refold::wanted(parts, n)->0, h) <==> exists|p: int|
                0 <= p < n && #[trigger] rows_name(parts, p, parts[p].rows.len(), h),
    decreases n,
{
    if n > 0 {
        let m = (n - 1) as nat;
        lemma_wanted_parts(parts, m);
        let before = refold::wanted(parts, m)->0;
        let out = refold::wanted(parts, n)->0;
        lemma_wanted_rows(parts, n - 1, parts[n - 1].rows.len(), before);
        assert forall|h: Seq<u8>| #[trigger] lists(out, h) <==> exists|p: int|
            0 <= p < n && #[trigger] rows_name(parts, p, parts[p].rows.len(), h) by {
            assert(lists(before, h) <==> exists|p: int|
                0 <= p < m && #[trigger] rows_name(parts, p, parts[p].rows.len(), h));
        }
    }
}

/// What a refold keeps are the pieces that shown records name, each once.
pub proof fn lemma_wanted_exactly(parts: Seq<PartView>)
    requires
        part::parts_sound(parts),
        refold::wanted(parts, parts.len()) is Some,
    ensures
        each_once(refold::wanted(parts, parts.len())->0),
        forall|h: Seq<u8>| #[trigger]
            lists(refold::wanted(parts, parts.len())->0, h) <==> named(parts, h),
{
    lemma_wanted_parts(parts, parts.len());
    let out = refold::wanted(parts, parts.len())->0;
    assert forall|h: Seq<u8>| #[trigger] lists(out, h) <==> named(parts, h) by {
        if lists(out, h) {
            let p = choose|p: int|
                0 <= p < parts.len() && #[trigger] rows_name(parts, p, parts[p].rows.len(), h);
            let r = choose|r: int|
                0 <= r < parts[p].rows.len() && read::located(
                    parts,
                    (#[trigger] parts[p].rows[r]).id,
                ) == Some((p as nat, r as nat)) && contents_name(
                    parts[p].rows[r].record->0.contents,
                    parts[p].rows[r].record->0.contents.len(),
                    h,
                );
            let contents = parts[p].rows[r].record->0.contents;
            let c = choose|c: int|
                0 <= c < contents.len() && ops_name(
                    (#[trigger] contents[c]).ops,
                    contents[c].ops.len(),
                    h,
                );
            let ops = contents[c].ops;
            let k = choose|k: int|
                0 <= k < ops.len() && (#[trigger] ops[k] matches OpView::Piece { hash, len: _ }
                    && hash == h);
            assert(names_piece(parts, parts[p].rows[r].id, c, k, h));
        }
        if named(parts, h) {
            let (id, c, k) = choose|id: Seq<char>, c: int, k: int| #[trigger]
                names_piece(parts, id, c, k, h);
            let (p, row) = read::located(parts, id)->0;
            read::lemma_newest(parts, id);
            let contents = parts[p as int].rows[row as int].record->0.contents;
            assert(contents[c].ops[k] is Piece);
            assert(ops_name(contents[c].ops, contents[c].ops.len(), h));
            assert(contents_name(contents, contents.len(), h));
            assert(parts[p as int].rows[row as int].id == id);
            assert(rows_name(parts, p as int, parts[p as int].rows.len(), h));
        }
    }
}

// ---------------------------------------------------------------------------------------------
// The order.
// ---------------------------------------------------------------------------------------------
/// Whether entries lie one after another.
pub open spec fn in_place(d: Seq<(Seq<u8>, Loc)>) -> bool {
    forall|i: int, j: int|
        0 <= i < j < d.len() ==> {
            let (a, b) = ((#[trigger] d[i]).1, (#[trigger] d[j]).1);
            a.block_id < b.block_id || (a.block_id == b.block_id && a.in_off <= b.in_off)
        }
}

proof fn lemma_inserted(d: Seq<(Seq<u8>, Loc)>, e: (Seq<u8>, Loc))
    requires
        in_place(d),
    ensures
        in_place(refold::inserted(d, e)),
        refold::inserted(d, e).to_multiset() == d.to_multiset().insert(e),
        refold::inserted(d, e).len() == d.len() + 1,
    decreases d.len(),
{
    broadcast use vstd::seq_lib::group_to_multiset_ensures;
    let r = refold::inserted(d, e);
    if d.len() == 0 || refold::lies_before(d.last().1, e.1) {
        assert(r == d.push(e));
        assert forall|i: int, j: int| 0 <= i < j < r.len() implies {
            let (a, b) = ((#[trigger] r[i]).1, (#[trigger] r[j]).1);
            a.block_id < b.block_id || (a.block_id == b.block_id && a.in_off <= b.in_off)
        } by {
            if j == d.len() && i < d.len() - 1 {
                assert(d[i] == r[i] && d[d.len() - 1] == d.last());
            }
        }
    } else {
        let front = d.drop_last();
        lemma_inserted(front, e);
        let f = refold::inserted(front, e);
        assert(d == front.push(d.last()));
        assert(r == f.push(d.last()));
        assert(r.to_multiset() =~= d.to_multiset().insert(e));
        assert forall|i: int, j: int| 0 <= i < j < r.len() implies {
            let (a, b) = ((#[trigger] r[i]).1, (#[trigger] r[j]).1);
            a.block_id < b.block_id || (a.block_id == b.block_id && a.in_off <= b.in_off)
        } by {
            if j == f.len() {
                assert(f.to_multiset().contains(f[i]));
                assert(front.to_multiset().insert(e).contains(f[i]));
                if f[i] != e {
                    assert(front.to_multiset().contains(f[i]));
                    assert(front.contains(f[i]));
                    let k = choose|k: int| 0 <= k < front.len() && front[k] == f[i];
                    assert(d[k] == f[i] && d[d.len() - 1] == d.last());
                }
            } else {
                assert(r[i] == f[i] && r[j] == f[j]);
            }
        }
    }
}

/// Pieces are copied in the order they lay in, each as often as it was asked for.
pub proof fn lemma_fold_order(pieces: Seq<(Seq<u8>, Loc)>, n: nat)
    requires
        n <= pieces.len(),
    ensures
        in_place(refold::fold_order(pieces, n)),
        refold::fold_order(pieces, n).to_multiset() == pieces.take(n as int).to_multiset(),
        refold::fold_order(pieces, n).len() == n,
    decreases n,
{
    broadcast use vstd::seq_lib::group_to_multiset_ensures;
    if n > 0 {
        let m = (n - 1) as nat;
        lemma_fold_order(pieces, m);
        lemma_inserted(refold::fold_order(pieces, m), pieces[n - 1]);
        assert(pieces.take(n as int) == pieces.take(n - 1).push(pieces[n - 1]));
    } else {
        assert(pieces.take(0) =~= Seq::<(Seq<u8>, Loc)>::empty());
    }
}

proof fn lemma_order_lists(pieces: Seq<(Seq<u8>, Loc)>)
    requires
        each_once(pieces),
    ensures
        ({
            let order = refold::fold_order(pieces, pieces.len());
            &&& order.len() == pieces.len()
            &&& each_once(order)
            &&& forall|h: Seq<u8>| #[trigger] lists(order, h) <==> lists(pieces, h)
        }),
{
    broadcast use vstd::seq_lib::group_to_multiset_ensures;
    let order = refold::fold_order(pieces, pieces.len());
    lemma_fold_order(pieces, pieces.len());
    assert(pieces.take(pieces.len() as int) =~= pieces);
    assert(order.to_multiset() == pieces.to_multiset());
    assert forall|h: Seq<u8>| #[trigger] lists(order, h) <==> lists(pieces, h) by {
        if lists(order, h) {
            let i = choose|i: int| 0 <= i < order.len() && (#[trigger] order[i]).0 == h;
            assert(order.to_multiset().contains(order[i]));
            assert(pieces.contains(order[i]));
            let j = choose|j: int| 0 <= j < pieces.len() && pieces[j] == order[i];
            assert(pieces[j].0 == h);
        }
        if lists(pieces, h) {
            let i = choose|i: int| 0 <= i < pieces.len() && (#[trigger] pieces[i]).0 == h;
            assert(pieces.to_multiset().contains(pieces[i]));
            assert(order.contains(pieces[i]));
            let j = choose|j: int| 0 <= j < order.len() && order[j] == pieces[i];
            assert(order[j].0 == h);
        }
    }
    assert forall|i: int, j: int| 0 <= i < j < order.len() implies (#[trigger] order[i]).0 != (
    #[trigger] order[j]).0 by {
        if order[i].0 == order[j].0 {
            assert(pieces.contains(order[i])) by {
                assert(order.to_multiset().contains(order[i]));
            }
            assert(pieces.contains(order[j])) by {
                assert(order.to_multiset().contains(order[j]));
            }
            let a = choose|a: int| 0 <= a < pieces.len() && pieces[a] == order[i];
            let b = choose|b: int| 0 <= b < pieces.len() && pieces[b] == order[j];
            assert(pieces[a].0 == pieces[b].0);
            assert(a == b);
            assert(pieces.no_duplicates()) by {
                assert forall|x: int, y: int|
                    0 <= x < pieces.len() && 0 <= y < pieces.len() && x != y implies pieces[x]
                    != pieces[y] by {
                    if x < y {
                        assert(pieces[x].0 != pieces[y].0);
                    } else {
                        assert(pieces[y].0 != pieces[x].0);
                    }
                }
            }
            pieces.lemma_multiset_has_no_duplicates();
            order.lemma_multiset_has_no_duplicates_conv();
        }
    }
}

// ---------------------------------------------------------------------------------------------
// The copy.
// ---------------------------------------------------------------------------------------------
spec fn block_sum(blocks: Seq<BlockView>) -> nat {
    sum_laws::sum(blocks.len(), |i: int| blocks[i].bytes.len())
}

spec fn window_sum(window: Seq<(Seq<u8>, Loc)>) -> nat {
    sum_laws::sum(window.len(), |i: int| window[i].1.raw as nat)
}

proof fn lemma_block_push(blocks: Seq<BlockView>, b: BlockView)
    ensures
        block_sum(blocks.push(b)) == block_sum(blocks) + b.bytes.len(),
{
    let more = blocks.push(b);
    sum_laws::lemma_sum(blocks.len(), |i: int| more[i].bytes.len());
    sum_laws::lemma_sum_same(
        blocks.len(),
        |i: int| more[i].bytes.len(),
        |i: int| blocks[i].bytes.len(),
    );
}

proof fn lemma_block_grown(blocks: Seq<BlockView>, b: BlockView)
    requires
        blocks.len() > 0,
    ensures
        block_sum(blocks.update(blocks.len() - 1, b)) + blocks.last().bytes.len() == block_sum(
            blocks,
        ) + b.bytes.len(),
{
    let front = blocks.drop_last();
    lemma_block_push(front, b);
    lemma_block_push(front, blocks.last());
    assert(front.push(b) =~= blocks.update(blocks.len() - 1, b));
    assert(front.push(blocks.last()) =~= blocks);
}

proof fn lemma_window_push(window: Seq<(Seq<u8>, Loc)>, h: Seq<u8>, loc: Loc)
    ensures
        window_sum(window.push((h, loc))) == window_sum(window) + loc.raw,
{
    let more = window.push((h, loc));
    sum_laws::lemma_sum(window.len(), |i: int| more[i].1.raw as nat);
    sum_laws::lemma_sum_same(
        window.len(),
        |i: int| more[i].1.raw as nat,
        |i: int| window[i].1.raw as nat,
    );
}

/// Whether every block has a piece of the window in it.
spec fn covered(w: WriterView) -> bool {
    forall|b: int| 0 <= b < w.fold.blocks.len() ==> #[trigger] holds_some(w.window, b)
}

/// Whether a block has a piece of the window in it.
spec fn holds_some(window: Seq<(Seq<u8>, Loc)>, b: int) -> bool {
    exists|i: int| 0 <= i < window.len() && (#[trigger] window[i]).1.block_id == b
}

proof fn lemma_copied(f: FoldView, order: Seq<(Seq<u8>, Loc)>, n: nat, target: u32)
    requires
        n <= order.len(),
        refold::copied(f, order, n, target) is Ok,
    ensures
        ({
            let w = refold::copied(f, order, n, target)->Ok_0;
            &&& w.window.len() == n
            &&& forall|i: int| 0 <= i < n ==> (#[trigger] w.window[i]).0 == order[i].0
            &&& covered(w)
            &&& block_sum(w.fold.blocks) == window_sum(w.window)
        }),
    decreases n,
{
    let after = refold::copied(f, order, n, target)->Ok_0;
    if n > 0 {
        let m = (n - 1) as nat;
        lemma_copied(f, order, m, target);
        refold::lemma_copied_ok(f, order, m, target);
        let w = refold::copied(f, order, m, target)->Ok_0;
        let (h, loc) = order[n - 1];
        let b = fold::fold_read(f, loc, h)->Ok_0;
        let at = (writer::appended(w, h, b)->0).1;
        assert(b.len() == loc.raw);
        lemma_window_push(w.window, h, at);
        let blocks = w.fold.blocks;
        if w.sealed < blocks.len() && blocks.last().bytes.len() + b.len() <= w.target {
            let last = blocks.last();
            lemma_block_grown(blocks, BlockView { bytes: last.bytes + b, ..last });
        } else {
            lemma_block_push(blocks, BlockView { segment: 0, end: 0, bytes: b });
        }
        assert forall|x: int| 0 <= x < after.fold.blocks.len() implies #[trigger] holds_some(
            after.window,
            x,
        ) by {
            if x < blocks.len() {
                assert(holds_some(w.window, x));
                let i = choose|i: int|
                    0 <= i < w.window.len() && (#[trigger] w.window[i]).1.block_id == x;
                assert(after.window[i] == w.window[i]);
            } else {
                assert(after.window[n - 1] == (h, at));
            }
        }
    } else {
        sum_laws::lemma_sum(0, |i: int| after.fold.blocks[i].bytes.len());
        sum_laws::lemma_sum(0, |i: int| after.window[i].1.raw as nat);
    }
}

proof fn lemma_unique_find(d: Seq<(Seq<u8>, Loc)>, i: int)
    requires
        each_once(d),
        0 <= i < d.len(),
    ensures
        part::find_loc(d, d[i].0) == Some(d[i].1),
{
    writer::lemma_find_loc(d, d[i].0);
    lemma_found(d, d[i].0);
    let loc = part::find_loc(d, d[i].0)->0;
    let j = choose|j: int| 0 <= j < d.len() && #[trigger] d[j] == (d[i].0, loc);
    if i < j {
        assert(d[i].0 != d[j].0);
    } else if j < i {
        assert(d[j].0 != d[i].0);
    }
}

/// What a rebuilt store reaches, through the parts of a refold: what the copy put there.
proof fn lemma_reached_copied(
    s: StoreView,
    p: RefoldView,
    encoded: Seq<EncodedPart>,
    m: ManifestView,
    loc: Loc,
)
    requires
        engine::store_ok(s),
        s.mem.len() == 0,
        s.parts.len() > 0,
        refold::refold_plan(s) == Ok::<RefoldView, RefoldError>(p),
        each_once(p.writer.window),
        forall|h: Seq<u8>| #[trigger] lists(p.writer.window, h) <==> named(s.parts, h),
    ensures
        punch_laws::reached(refold::refolded_store(s, p, encoded, m).parts, loc) <==> exists|i: int|
            0 <= i < p.writer.window.len() && (#[trigger] p.writer.window[i]).1 == loc,
{
    let t = refold::refolded_store(s, p, encoded, m);
    let w = p.writer;
    if punch_laws::reached(t.parts, loc) {
        let (id, c, k) = choose|id: Seq<char>, c: int, k: int| #[trigger]
            punch_laws::reaches(t.parts, id, c, k, loc);
        let found = refold_laws::lemma_refold_located(
            s.parts,
            s.manifest.parts,
            p.generation,
            w,
            encoded,
            id,
        );
        let (i, r, q) = found->0;
        let rows = p.parts[i].rows;
        refold_laws::lemma_rebuilds(s.parts, w, p.parts[i], r, c);
        let ops = rows[r].record->0.contents[c].ops;
        assert(t.parts[i].rows == rows && t.parts[i].pieces == p.parts[i].pieces);
        if let OpView::Piece { hash, len: _ } = ops[k] {
            assert(part::find_loc(p.parts[i].pieces, hash) == Some(loc));
            lemma_nowhere(w.fold, hash);
            writer::lemma_find_loc(w.window, hash);
            let j = choose|j: int| 0 <= j < w.window.len() && #[trigger] w.window[j] == (hash, loc);
            assert(w.window[j].1 == loc);
        }
    }
    if exists|i: int| 0 <= i < w.window.len() && (#[trigger] w.window[i]).1 == loc {
        let i = choose|i: int| 0 <= i < w.window.len() && (#[trigger] w.window[i]).1 == loc;
        let h = w.window[i].0;
        lemma_unique_find(w.window, i);
        assert(lists(w.window, h));
        assert(named(s.parts, h));
        let (id, c, k) = choose|id: Seq<char>, c: int, k: int| #[trigger]
            names_piece(s.parts, id, c, k, h);
        let found = refold_laws::lemma_refold_located(
            s.parts,
            s.manifest.parts,
            p.generation,
            w,
            encoded,
            id,
        );
        let (a, r, q) = found->0;
        let rows = p.parts[a].rows;
        refold_laws::lemma_rebuilds(s.parts, w, p.parts[a], r, c);
        assert(t.parts[a].rows == rows && t.parts[a].pieces == p.parts[a].pieces);
        let ops = rows[r].record->0.contents[c].ops;
        assert(ops[k] is Piece);
        assert(part::find_loc(p.parts[a].pieces, h) == Some(loc));
        assert(punch_laws::names_loc(t.parts[a], r, c, k, loc));
        assert(punch_laws::reaches(t.parts, id, c, k, loc));
    }
}

proof fn lemma_nowhere(f: FoldView, h: Seq<u8>)
    ensures
        writer::located_in(Seq::<PartView>::empty(), f, h, 0) == Ok::<Option<Loc>, fold::FoldError>(
            None,
        ),
{
}

/// After a refold nothing dead is left: every block holds something that a shown record reaches,
/// and the bytes of all blocks are those of the live pieces.
pub proof fn lemma_refold_leaves_nothing_dead(
    s: StoreView,
    p: RefoldView,
    encoded: Seq<EncodedPart>,
    m: ManifestView,
)
    requires
        engine::store_ok(s),
        s.mem.len() == 0,
        s.parts.len() > 0,
        part::parts_sound(refold::refolded_store(s, p, encoded, m).parts),
        refold::refold_plan(s) == Ok::<RefoldView, RefoldError>(p),
    ensures
        ({
            let t = refold::refolded_store(s, p, encoded, m);
            let blocks = t.writer.fold.blocks;
            let locs = liveness::live_locs(t.parts, t.parts.len());
            &&& forall|b: u32| !#[trigger] punch::store_dead(t).contains(b)
            &&& sum_laws::sum(blocks.len(), |i: int| blocks[i].bytes.len()) == sum_laws::sum(
                locs.len(),
                |i: int| locs[i].raw as nat,
            )
            &&& forall|h: Seq<u8>| #[trigger] lists(p.writer.window, h) <==> named(s.parts, h)
            &&& refold::wanted(s.parts, s.parts.len())->0.len() == p.writer.window.len()
        }),
{
    let t = refold::refolded_store(s, p, encoded, m);
    let pieces = refold::wanted(s.parts, s.parts.len())->0;
    let order = refold::fold_order(pieces, pieces.len());
    let w = p.writer;
    lemma_wanted_exactly(s.parts);
    lemma_order_lists(pieces);
    lemma_copied(s.writer.fold, order, order.len(), s.writer.target);
    refold::lemma_copied_ok(s.writer.fold, order, order.len(), s.writer.target);
    assert forall|i: int, j: int| 0 <= i < j < w.window.len() implies (#[trigger] w.window[i]).0
        != (#[trigger] w.window[j]).0 by {
        assert(w.window[i].0 == order[i].0 && w.window[j].0 == order[j].0);
    }
    assert forall|h: Seq<u8>| #[trigger] lists(w.window, h) <==> named(s.parts, h) by {
        assert(lists(order, h) <==> lists(pieces, h));
        assert(lists(pieces, h) <==> named(s.parts, h));
        if lists(w.window, h) {
            let i = choose|i: int| 0 <= i < w.window.len() && (#[trigger] w.window[i]).0 == h;
            assert(order[i].0 == h);
        }
        if lists(order, h) {
            let i = choose|i: int| 0 <= i < order.len() && (#[trigger] order[i]).0 == h;
            assert(w.window[i].0 == h);
        }
    }
    let held = Seq::new(w.window.len(), |i: int| w.window[i].1);
    let locs = liveness::live_locs(t.parts, t.parts.len());
    punch_laws::lemma_live_exactly(t.parts);
    assert(held.no_duplicates()) by {
        assert forall|i: int, j: int|
            0 <= i < held.len() && 0 <= j < held.len() && i != j implies held[i] != held[j] by {
            assert(fold::fold_read(w.fold, w.window[i].1, w.window[i].0) is Ok);
            assert(fold::fold_read(w.fold, w.window[j].1, w.window[j].0) is Ok);
            if held[i] == held[j] {
                assert(w.window[i].0 == w.window[j].0);
            }
        }
    }
    assert forall|loc: Loc| #[trigger] locs.contains(loc) <==> held.contains(loc) by {
        lemma_reached_copied(s, p, encoded, m, loc);
        assert(locs.contains(loc) <==> punch_laws::reached(t.parts, loc));
        if held.contains(loc) {
            let i = choose|i: int| 0 <= i < held.len() && held[i] == loc;
            assert(w.window[i].1 == loc);
        }
        if exists|i: int| 0 <= i < w.window.len() && (#[trigger] w.window[i]).1 == loc {
            let i = choose|i: int| 0 <= i < w.window.len() && (#[trigger] w.window[i]).1 == loc;
            assert(held[i] == loc);
        }
    }
    let raw = |loc: Loc| loc.raw as nat;
    sum_laws::lemma_total_any_order(locs, held, raw);
    assert(locs.map_values(raw) =~= Seq::new(locs.len(), |i: int| locs[i].raw as nat));
    assert(held.map_values(raw) =~= Seq::new(w.window.len(), |i: int| w.window[i].1.raw as nat));
    assert forall|b: u32| !#[trigger] punch::store_dead(t).contains(b) by {
        punch_laws::lemma_dead_exactly(t, b);
        if b < t.writer.fold.blocks.len() {
            assert(holds_some(w.window, b as int));
            let i = choose|i: int|
                0 <= i < w.window.len() && (#[trigger] w.window[i]).1.block_id == b as int;
            let loc = w.window[i].1;
            assert(held[i] == loc);
            assert(held.contains(loc));
            assert(locs.contains(loc));
            assert(punch_laws::reached(t.parts, loc));
        }
    }
}

// ---------------------------------------------------------------------------------------------
// What is counted.
// ---------------------------------------------------------------------------------------------
proof fn lemma_joined(d: Seq<(Seq<u8>, Loc)>, n: nat, acc: Seq<(Seq<u8>, Loc)>)
    requires
        n <= d.len(),
        each_once(acc),
    ensures
        each_once(refold::joined(d, n, acc)),
        forall|h: Seq<u8>| #[trigger]
            lists(refold::joined(d, n, acc), h) <==> lists(acc, h) || lists(d.take(n as int), h),
    decreases n,
{
    if n > 0 {
        let m = (n - 1) as nat;
        lemma_joined(d, m, acc);
        let before = refold::joined(d, m, acc);
        let out = refold::joined(d, n, acc);
        let (x, loc) = d[n - 1];
        lemma_found(before, x);
        if !lists(before, x) {
            lemma_pushed(before, x, loc);
        }
        let (now, earlier) = (d.take(n as int), d.take(m as int));
        assert forall|h: Seq<u8>| #[trigger] lists(out, h) <==> lists(acc, h) || lists(now, h) by {
            assert(lists(before, h) <==> lists(acc, h) || lists(earlier, h));
            if lists(earlier, h) {
                let i = choose|i: int| 0 <= i < earlier.len() && (#[trigger] earlier[i]).0 == h;
                assert(now[i].0 == h);
            }
            if lists(now, h) && h != x {
                let i = choose|i: int| 0 <= i < now.len() && (#[trigger] now[i]).0 == h;
                assert(earlier[i].0 == h);
            }
            assert(now[n - 1].0 == x);
        }
    } else {
        assert forall|h: Seq<u8>| !#[trigger] lists(d.take(0), h) by {}
    }
}

/// The pieces of all dictionaries are those that some part's dictionary has, each once.
pub proof fn lemma_all_pieces(parts: Seq<PartView>, n: nat)
    requires
        n <= parts.len(),
    ensures
        each_once(refold::all_pieces(parts, n)),
        forall|h: Seq<u8>| #[trigger]
            lists(refold::all_pieces(parts, n), h) <==> exists|p: int|
                0 <= p < n && lists((#[trigger] parts[p]).pieces, h),
    decreases n,
{
    if n > 0 {
        let m = (n - 1) as nat;
        lemma_all_pieces(parts, m);
        let d = parts[n - 1].pieces;
        lemma_joined(d, d.len(), refold::all_pieces(parts, m));
        assert(d.take(d.len() as int) =~= d);
        let before = refold::all_pieces(parts, m);
        let out = refold::all_pieces(parts, n);
        assert forall|h: Seq<u8>| #[trigger] lists(out, h) <==> exists|p: int|
            0 <= p < n && lists((#[trigger] parts[p]).pieces, h) by {
            assert(lists(out, h) <==> lists(before, h) || lists(d, h));
            if lists(before, h) {
                let p = choose|p: int| 0 <= p < m && lists((#[trigger] parts[p]).pieces, h);
                assert(lists(parts[p].pieces, h));
            }
            if lists(d, h) {
                assert(lists(parts[n - 1].pieces, h));
            }
            if exists|p: int| 0 <= p < n && lists((#[trigger] parts[p]).pieces, h) {
                let p = choose|p: int| 0 <= p < n && lists((#[trigger] parts[p]).pieces, h);
                if p < m {
                    assert(lists(parts[p].pieces, h));
                }
            }
        }
    }
}

proof fn lemma_wanted_held_ops(
    dict: Seq<(Seq<u8>, Loc)>,
    ops: Seq<OpView>,
    n: nat,
    acc: Seq<(Seq<u8>, Loc)>,
    all: Seq<(Seq<u8>, Loc)>,
)
    requires
        n <= ops.len(),
        refold::wanted_ops(dict, ops, n, acc) is Some,
        forall|h: Seq<u8>| #[trigger] lists(acc, h) ==> lists(all, h),
        forall|h: Seq<u8>| #[trigger] lists(dict, h) ==> lists(all, h),
    ensures
        forall|h: Seq<u8>| #[trigger]
            lists(refold::wanted_ops(dict, ops, n, acc)->0, h) ==> lists(all, h),
    decreases n,
{
    if n > 0 {
        let m = (n - 1) as nat;
        lemma_wanted_held_ops(dict, ops, m, acc, all);
        let before = refold::wanted_ops(dict, ops, m, acc)->0;
        if let OpView::Piece { hash, len: _ } = ops[n - 1] {
            if part::find_loc(before, hash) is None {
                lemma_found(dict, hash);
                let out = before.push((hash, part::find_loc(dict, hash)->0));
                assert forall|h: Seq<u8>| #[trigger] lists(out, h) implies lists(all, h) by {
                    let i = choose|i: int| 0 <= i < out.len() && (#[trigger] out[i]).0 == h;
                    if i < before.len() {
                        assert(before[i].0 == h);
                        assert(lists(before, h));
                    } else {
                        assert(lists(dict, h));
                    }
                }
            }
        }
    }
}

proof fn lemma_wanted_held_contents(
    dict: Seq<(Seq<u8>, Loc)>,
    contents: Seq<ContentView>,
    n: nat,
    acc: Seq<(Seq<u8>, Loc)>,
    all: Seq<(Seq<u8>, Loc)>,
)
    requires
        n <= contents.len(),
        refold::wanted_contents(dict, contents, n, acc) is Some,
        forall|h: Seq<u8>| #[trigger] lists(acc, h) ==> lists(all, h),
        forall|h: Seq<u8>| #[trigger] lists(dict, h) ==> lists(all, h),
    ensures
        forall|h: Seq<u8>| #[trigger]
            lists(refold::wanted_contents(dict, contents, n, acc)->0, h) ==> lists(all, h),
    decreases n,
{
    if n > 0 {
        let m = (n - 1) as nat;
        lemma_wanted_held_contents(dict, contents, m, acc, all);
        let ops = contents[n - 1].ops;
        lemma_wanted_held_ops(
            dict,
            ops,
            ops.len(),
            refold::wanted_contents(dict, contents, m, acc)->0,
            all,
        );
    }
}

proof fn lemma_wanted_held_rows(
    parts: Seq<PartView>,
    p: int,
    n: nat,
    acc: Seq<(Seq<u8>, Loc)>,
    all: Seq<(Seq<u8>, Loc)>,
)
    requires
        0 <= p < parts.len(),
        n <= parts[p].rows.len(),
        refold::wanted_rows(parts, p, n, acc) is Some,
        forall|h: Seq<u8>| #[trigger] lists(acc, h) ==> lists(all, h),
        forall|h: Seq<u8>| #[trigger] lists(parts[p].pieces, h) ==> lists(all, h),
    ensures
        forall|h: Seq<u8>| #[trigger]
            lists(refold::wanted_rows(parts, p, n, acc)->0, h) ==> lists(all, h),
    decreases n,
{
    if n > 0 {
        let m = (n - 1) as nat;
        lemma_wanted_held_rows(parts, p, m, acc, all);
        if read::verdict(parts, p, n - 1) == Verdict::Live {
            let contents = parts[p].rows[n - 1].record->0.contents;
            lemma_wanted_held_contents(
                parts[p].pieces,
                contents,
                contents.len(),
                refold::wanted_rows(parts, p, m, acc)->0,
                all,
            );
        }
    }
}

proof fn lemma_wanted_held(parts: Seq<PartView>, n: nat)
    requires
        n <= parts.len(),
        refold::wanted(parts, n) is Some,
    ensures
        forall|h: Seq<u8>| #[trigger]
            lists(refold::wanted(parts, n)->0, h) ==> lists(
                refold::all_pieces(parts, parts.len()),
                h,
            ),
    decreases n,
{
    if n > 0 {
        let m = (n - 1) as nat;
        let all = refold::all_pieces(parts, parts.len());
        lemma_wanted_held(parts, m);
        lemma_all_pieces(parts, parts.len());
        assert forall|h: Seq<u8>| #[trigger] lists(parts[n - 1].pieces, h) implies lists(
            all,
            h,
        ) by {
            assert(lists(parts[n - 1].pieces, h));
        }
        lemma_wanted_held_rows(
            parts,
            n - 1,
            parts[n - 1].rows.len(),
            refold::wanted(parts, m)->0,
            all,
        );
    }
}

/// A list without repetitions is no longer than one that has everything it has.
proof fn lemma_no_longer(a: Seq<(Seq<u8>, Loc)>, b: Seq<(Seq<u8>, Loc)>)
    requires
        each_once(a),
        each_once(b),
        forall|h: Seq<u8>| #[trigger] lists(a, h) ==> lists(b, h),
    ensures
        a.len() <= b.len(),
{
    let x = Seq::new(a.len(), |i: int| a[i].0);
    let y = Seq::new(b.len(), |i: int| b[i].0);
    assert(x.no_duplicates()) by {
        assert forall|i: int, j: int|
            0 <= i < x.len() && 0 <= j < x.len() && i != j implies x[i] != x[j] by {
            if i < j {
                assert(a[i].0 != a[j].0);
            } else {
                assert(a[j].0 != a[i].0);
            }
        }
    }
    assert(y.no_duplicates()) by {
        assert forall|i: int, j: int|
            0 <= i < y.len() && 0 <= j < y.len() && i != j implies y[i] != y[j] by {
            if i < j {
                assert(b[i].0 != b[j].0);
            } else {
                assert(b[j].0 != b[i].0);
            }
        }
    }
    x.unique_seq_to_set();
    y.unique_seq_to_set();
    assert(x.to_set().subset_of(y.to_set())) by {
        assert forall|h: Seq<u8>| x.to_set().contains(h) implies y.to_set().contains(h) by {
            let i = choose|i: int| 0 <= i < x.len() && x[i] == h;
            assert(a[i].0 == h);
            assert(lists(a, h));
            let j = choose|j: int| 0 <= j < b.len() && (#[trigger] b[j]).0 == h;
            assert(y[j] == h);
        }
    }
    vstd::set_lib::lemma_len_subset(x.to_set(), y.to_set());
}

/// What a refold counts of pieces: it kept one for each identity that a shown record names, and
/// dropped one for each other identity of a dictionary.
pub proof fn lemma_refold_counts_pieces(s: StoreView, p: RefoldView)
    requires
        engine::store_ok(s),
        s.parts.len() > 0,
        refold::refold_plan(s) == Ok::<RefoldView, RefoldError>(p),
        refold::all_pieces(s.parts, s.parts.len()).len() <= usize::MAX,
    ensures
        ({
            let kept = refold::wanted(s.parts, s.parts.len())->0;
            let all = refold::all_pieces(s.parts, s.parts.len());
            &&& each_once(kept) && each_once(all)
            &&& forall|h: Seq<u8>| #[trigger] lists(kept, h) <==> named(s.parts, h)
            &&& forall|h: Seq<u8>| #[trigger]
                lists(all, h) <==> exists|q: int|
                    0 <= q < s.parts.len() && lists((#[trigger] s.parts[q]).pieces, h)
            &&& p.stats.pieces_kept == kept.len()
            &&& p.stats.pieces_kept + p.stats.pieces_dropped == all.len()
            &&& s.parts.len() <= usize::MAX ==> p.stats.parts_in == s.parts.len()
            &&& p.parts.len() <= usize::MAX ==> p.stats.parts_out == p.parts.len()
        }),
{
    lemma_wanted_exactly(s.parts);
    lemma_all_pieces(s.parts, s.parts.len());
    lemma_wanted_held(s.parts, s.parts.len());
    lemma_no_longer(
        refold::wanted(s.parts, s.parts.len())->0,
        refold::all_pieces(s.parts, s.parts.len()),
    );
}

// ---------------------------------------------------------------------------------------------
// Where a piece goes.
// ---------------------------------------------------------------------------------------------
/// A piece goes to the end of the open block where the block then holds no more than its target, and
/// else begins a block of its own; no other block changes, and only where no block id is left is it
/// refused. So a block above its target holds one piece.
pub proof fn lemma_packed(w: WriterView, h: Seq<u8>, b: Seq<u8>)
    requires
        w.sealed <= w.fold.blocks.len() <= u32::MAX,
        b.len() <= u32::MAX,
    ensures
        ({
            let blocks = w.fold.blocks;
            let n = blocks.len();
            let room = w.sealed < n && blocks.last().bytes.len() + b.len() <= w.target;
            match writer::appended(w, h, b) {
                Some((after, loc)) => {
                    let grown = after.fold.blocks;
                    &&& loc.raw == b.len()
                    &&& after.window == w.window.push((h, loc))
                    &&& after.sealed == w.sealed && after.target == w.target
                    &&& after.fold.punched == w.fold.punched
                    &&& room ==> {
                        &&& grown.len() == n
                        &&& loc.block_id == n - 1
                        &&& loc.in_off == blocks.last().bytes.len()
                        &&& grown.last().bytes == blocks.last().bytes + b
                        &&& grown.last().bytes.len() <= w.target
                        &&& forall|i: int| 0 <= i < n - 1 ==> grown[i] == blocks[i]
                    }
                    &&& !room ==> {
                        &&& grown.len() == n + 1
                        &&& loc.block_id == n
                        &&& loc.in_off == 0
                        &&& grown.last().bytes == b
                        &&& forall|i: int| 0 <= i < n ==> grown[i] == blocks[i]
                    }
                },
                None => !room && n == u32::MAX,
            }
        }),
{
}

} // verus!
