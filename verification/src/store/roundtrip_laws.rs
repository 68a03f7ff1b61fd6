//! What is put is read back by whoever opens the container after a flush.

use crate::container::ContainerView;
use crate::fold;
use crate::fold::{FoldView, Loc};
use crate::part;
use crate::part::ReadError;
use crate::read_limits::ReadLimits;
use crate::store::admission;
use crate::store::admission::SpansView;
use crate::store::carve;
use crate::store::chain;
use crate::store::container_laws;
use crate::store::engine;
use crate::store::engine::StoreView;
use crate::store::engine_laws;
use crate::store::engine_read;
use crate::store::fresh_laws;
use crate::store::manifest;
use crate::store::manifest::{FoldTail, ManifestView};
use crate::store::open;
use crate::store::open::TailRule;
use crate::store::operation_laws;
use crate::store::publish;
use crate::store::publish::{EncodedPart, PlanView, PublishError};
use crate::store::publish_laws;
use crate::store::read;
use crate::store::writer;
use crate::types;
use crate::types::{AttrView, ContentView};
use vstd::prelude::*;

verus! {

/// Two folds that hold the same bytes in the same blocks.
pub open spec fn same_content(f: FoldView, g: FoldView) -> bool {
    &&& g.punched == f.punched
    &&& g.blocks.len() == f.blocks.len()
    &&& forall|i: int| 0 <= i < f.blocks.len() ==> (#[trigger] g.blocks[i]).bytes == f.blocks[i].bytes
}

pub proof fn lemma_same_content(f: FoldView, g: FoldView)
    requires
        same_content(f, g),
    ensures
        writer::extends(f, g),
{
    assert forall|loc: Loc, h: Seq<u8>| fold::fold_read(f, loc, h) is Ok implies #[trigger] fold::fold_read(
        g,
        loc,
        h,
    ) == fold::fold_read(f, loc, h) by {
        assert(g.blocks[loc.block_id as int].bytes == f.blocks[loc.block_id as int].bytes);
    }
}

/// A record's contents have the names they were put with, and no others.
proof fn lemma_unnamed(from: Seq<ContentView>, to: Seq<ContentView>, name: Seq<char>)
    requires
        types::canonical_of(from, to),
        forall|k: int| 0 <= k < from.len() ==> (#[trigger] from[k]).name != name,
    ensures
        part::content_named(to, name) is None,
{
    if part::content_named(to, name) is Some {
        let j = part::lemma_content_named(to, name);
        from.to_multiset_ensures();
        to.to_multiset_ensures();
        assert(to.contains(to[j]));
        assert(from.to_multiset().count(to[j]) > 0);
        assert(from.contains(to[j]));
        let k = choose|k: int| 0 <= k < from.len() && from[k] == to[j];
        assert(from[k].name == name);
    }
}

/// A put that was accepted leaves a writer that goes on.
proof fn lemma_put_usable(
    s: StoreView,
    t: StoreView,
    synced: StoreView,
    id: Seq<char>,
    contents: Seq<SpansView>,
    attrs: Seq<(Seq<char>, AttrView)>,
)
    requires
        engine::put_outcome(s, t, id, contents, attrs, Ok(())),
        operation_laws::log_moved(t, synced),
    ensures
        !synced.requires_reopen,
{
}

/// [`lemma_put_survives`] for a plan that goes with its container.
proof fn lemma_put_survives_published(
    s: StoreView,
    t: StoreView,
    synced: StoreView,
    u: StoreView,
    id: Seq<char>,
    contents: Seq<SpansView>,
    attrs: Seq<(Seq<char>, AttrView)>,
    p: PlanView,
    e: EncodedPart,
    tail: FoldTail,
    m: ManifestView,
    json: Seq<u8>,
    c: ContainerView,
    limits: ReadLimits,
    seq: u64,
    name: Seq<char>,
)
    requires
        engine::store_ok(s),
        engine::store_ok(t),
        engine::put_outcome(s, t, id, contents, attrs, Ok(())),
        forall|k: int|
            0 <= k < contents.len() ==> engine_laws::genuine(
                t.writer.fold,
                (#[trigger] contents[k]).spans,
            ),
        operation_laws::log_moved(t, synced),
        publish::flush_plan(synced) == Ok::<PlanView, PublishError>(p),
        operation_laws::published(
            synced,
            u,
            p,
            e,
            tail,
            publish::predecessor_bytes(c.members),
            m,
            Ok(m.parts[p.start as int]),
        ),
        container_laws::publishable(synced, c, p, e, tail, m),
        manifest::sealed(json).len() <= manifest::MAX_MANIFEST_BYTES,
        open::fold_of(c.members, m, m.punched, TailRule::Exact, limits) matches Ok(f)
            && same_content(u.writer.fold, f),
    ensures
        ({
            let after = ContainerView {
                seq,
                members: publish::published_members(c.members, p, e, m, json),
            };
            open::current_view(after, limits) matches Ok(v) && {
                &&& v.manifest == u.manifest
                &&& v.parts == u.parts
                &&& forall|k: int|
                    0 <= k < contents.len() && (#[trigger] contents[k]).name == name
                        ==> read::value_of(v.parts, v.fold, id, name) == Ok::<
                        Option<Seq<u8>>,
                        ReadError,
                    >(Some(admission::spans_bytes(contents[k].spans)))
                &&& (forall|k: int|
                    0 <= k < contents.len() ==> (#[trigger] contents[k]).name != name)
                    ==> read::value_of(v.parts, v.fold, id, name) == Ok::<
                    Option<Seq<u8>>,
                    ReadError,
                >(None)
            }
        }),
{
    container_laws::lemma_publish_opens(synced, c, p, e, tail, m, json, limits, seq);
    let after = ContainerView {
        seq,
        members: publish::published_members(c.members, p, e, m, json),
    };
    let v = open::current_view(after, limits)->Ok_0;
    let w = publish::published_store(t, p, e, m, t.wal);
    assert(publish::flush_plan(t) == Ok::<PlanView, PublishError>(p));
    assert(v.parts == w.parts && u.parts == w.parts);
    assert(w.writer.fold == t.writer.fold && u.writer.fold == t.writer.fold);
    lemma_same_content(u.writer.fold, v.fold);
    assert forall|k: int| 0 <= k < contents.len() && (#[trigger] contents[k]).name
        == name implies read::value_of(v.parts, v.fold, id, name) == Ok::<
        Option<Seq<u8>>,
        ReadError,
    >(Some(admission::spans_bytes(contents[k].spans))) by {
        publish_laws::lemma_put_flush_reads(s, t, id, contents, attrs, k, p, e, m, t.wal);
        lemma_value_same(v.parts, u.writer.fold, v.fold, id, name);
    }
    if forall|k: int| 0 <= k < contents.len() ==> (#[trigger] contents[k]).name != name {
        engine_laws::lemma_put_visible(s, t, id, contents, attrs, id);
        publish_laws::lemma_flush_visible(t, p, e, m, t.wal, id);
        let rec = engine_read::visible(t, id)->0;
        let all = carve::carved_all(contents);
        assert forall|k: int| 0 <= k < all.len() implies (#[trigger] all[k]).name != name by {
            assert(contents[k].name != name);
        }
        lemma_unnamed(all, rec.contents, name);
        assert(part::row_of(w.mem, id) is None);
    }
}

/// A committed value that reads, reads the same where the fold holds the same bytes.
proof fn lemma_value_same(
    parts: Seq<part::PartView>,
    f: FoldView,
    g: FoldView,
    id: Seq<char>,
    name: Seq<char>,
)
    requires
        writer::extends(f, g),
        read::value_of(parts, f, id, name) is Ok,
    ensures
        read::value_of(parts, g, id, name) == read::value_of(parts, f, id, name),
{
    if let Some((q, row)) = read::located(parts, id) {
        if let Some(c) = part::content_named(
            parts[q as int].rows[row as int].record->0.contents,
            name,
        ) {
            engine_laws::lemma_program_extends(parts[q as int].pieces, f, g, c.ops);
        }
    }
}

/// Put, made durable, flushed, and opened again: a reader of the container gives back the bytes of
/// every content that was put, and nothing for a name that was not. The container is the one the
/// writer is at, with the fold that the writer handed over.
pub proof fn lemma_put_survives(
    s: StoreView,
    t: StoreView,
    synced: StoreView,
    u: StoreView,
    id: Seq<char>,
    contents: Seq<SpansView>,
    attrs: Seq<(Seq<char>, AttrView)>,
    p: PlanView,
    e: EncodedPart,
    tail: FoldTail,
    m: ManifestView,
    json: Seq<u8>,
    c: ContainerView,
    limits: ReadLimits,
    seq: u64,
    name: Seq<char>,
)
    requires
        engine::store_ok(s),
        engine::store_ok(t),
        engine::put_outcome(s, t, id, contents, attrs, Ok(())),
        forall|k: int|
            0 <= k < contents.len() ==> engine_laws::genuine(
                t.writer.fold,
                (#[trigger] contents[k]).spans,
            ),
        operation_laws::log_moved(t, synced),
        engine::store_ok(synced),
        publish::flush_plan(synced) == Ok::<PlanView, PublishError>(p),
        operation_laws::published(
            synced,
            u,
            p,
            e,
            tail,
            publish::predecessor_bytes(c.members),
            m,
            Ok(m.parts[p.start as int]),
        ),
        container_laws::agrees(synced, c),
        synced.mem.len() <= u32::MAX,
        !chain::tail_before(m, synced.manifest),
        manifest::sealed(json).len() <= manifest::MAX_MANIFEST_BYTES,
        open::fold_of(c.members, m, m.punched, TailRule::Exact, limits) matches Ok(f)
            && same_content(u.writer.fold, f),
    ensures
        ({
            let after = ContainerView {
                seq,
                members: publish::published_members(c.members, p, e, m, json),
            };
            open::current_view(after, limits) matches Ok(v) && {
                &&& v.manifest == u.manifest
                &&& v.parts == u.parts
                &&& forall|k: int|
                    0 <= k < contents.len() && (#[trigger] contents[k]).name == name
                        ==> read::value_of(v.parts, v.fold, id, name) == Ok::<
                        Option<Seq<u8>>,
                        ReadError,
                    >(Some(admission::spans_bytes(contents[k].spans)))
                &&& (forall|k: int|
                    0 <= k < contents.len() ==> (#[trigger] contents[k]).name != name)
                    ==> read::value_of(v.parts, v.fold, id, name) == Ok::<
                    Option<Seq<u8>>,
                    ReadError,
                >(None)
            }
        }),
{
    lemma_put_usable(s, t, synced, id, contents, attrs);
    fresh_laws::lemma_flush_publishable(
        synced,
        u,
        c,
        p,
        e,
        tail,
        m,
        Ok(m.parts[p.start as int]),
    );
    lemma_put_survives_published(
        s,
        t,
        synced,
        u,
        id,
        contents,
        attrs,
        p,
        e,
        tail,
        m,
        json,
        c,
        limits,
        seq,
        name,
    );
}

} // verus!
