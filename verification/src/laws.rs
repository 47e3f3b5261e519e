//! What holds of every store: the invariants, and how the operations go together.

use vstd::prelude::*;
use crate::admission::heard;
use crate::import::{ImportKind, ImportedView};
use crate::links::{lemma_filter_holds, lemma_filter_member};
use crate::merge::{resourced, retargeted, settled};
use crate::model::{
    Edge, LinkType, Neighbor, AUTO_LINK_THRESHOLD, AUTO_MERGE_THRESHOLD, EMBED_BYTES,
};
use crate::recall::{later_of, touched};
use crate::store::{StoreView, has_triple, incident_to, other_than};
use crate::tags::union_tags;

verus! {

/// No two memories share a mnemonic.
pub proof fn law_mnemonics_are_unique(store: StoreView, i: int, j: int)
    requires
        store.wf(),
        0 <= i < store.rows.len(),
        0 <= j < store.rows.len(),
        i != j,
    ensures
        store.rows[i].mnemonic != store.rows[j].mnemonic,
        store.rows[i].uuid != store.rows[j].uuid,
        store.rows[i].id != store.rows[j].id,
{
    if i < j {
        assert(store.rows[i].id < store.rows[j].id);
    } else {
        assert(store.rows[j].id < store.rows[i].id);
    }
}

/// Every memory has one embedding, of the one length: the row carries it.
pub proof fn law_every_row_has_its_embedding(store: StoreView, i: int)
    requires
        store.wf(),
        0 <= i < store.rows.len(),
    ensures
        store.rows[i].embedding.len() == EMBED_BYTES,
{
    assert(store.row_ok(store.rows[i]));
}

/// No link joins a memory to itself, and every link joins two memories of
/// the store.
pub proof fn law_no_self_links(store: StoreView, i: int)
    requires
        store.wf(),
        0 <= i < store.edges.len(),
    ensures
        store.edges[i].source != store.edges[i].target,
        store.has_id(store.edges[i].source),
        store.has_id(store.edges[i].target),
{
    assert(store.edge_ok(store.edges[i]));
}

/// Whether every row of `before` that is still in `after` has kept its
/// external identifier.
pub open spec fn keeps_uuids(before: StoreView, after: StoreView) -> bool {
    forall|id: i64|
        before.has_id(id) && after.has_id(id) ==> after.row_of_id(id).uuid == before.row_of_id(
            id,
        ).uuid
}

/// Rows that agree on identifier and external identifier, place by place,
/// keep their external identifiers.
proof fn lemma_same_places(before: StoreView, after: StoreView)
    requires
        before.wf(),
        after.wf(),
        after.rows.len() >= before.rows.len(),
        forall|i: int|
            0 <= i < before.rows.len() ==> (#[trigger] after.rows[i]).id == before.rows[i].id
                && after.rows[i].uuid == before.rows[i].uuid,
    ensures
        keeps_uuids(before, after),
{
    assert forall|id: i64| before.has_id(id) && after.has_id(id) implies after.row_of_id(id).uuid
        == before.row_of_id(id).uuid by {
        let i = before.position_of_id(id);
        assert(after.rows[i].id == id);
        after.lemma_position_of_id(id, i);
    }
}

/// A write keeps the external identifier of every memory: writing over a
/// memory does not touch it, and a new memory takes none from another.
pub proof fn law_upsert_keeps_uuids(
    store: StoreView,
    mnemonic: Seq<char>,
    content: Seq<char>,
    tags: Seq<Seq<char>>,
    embedding: Seq<u8>,
    uuid: Seq<char>,
    now: i64,
)
    requires
        store.wf(),
        store.upsert_outcome(mnemonic, embedding, uuid) is Ok,
    ensures
        store.upserted(mnemonic, content, tags, embedding, uuid, now).wf(),
        keeps_uuids(store, store.upserted(mnemonic, content, tags, embedding, uuid, now)),
{
    let after = store.upserted(mnemonic, content, tags, embedding, uuid, now);
    if store.has_mnemonic(mnemonic) {
        let i = store.position(mnemonic);
        assert(store.row_ok(store.rows[i]));
        store.lemma_only_one(i);
        store.lemma_with_row(i, after.rows[i]);
    } else {
        store.lemma_with_new_row(after.rows[store.rows.len() as int]);
    }
    lemma_same_places(store, after);
}

/// Receiving a written memory keeps the external identifier of every memory
/// that stays, whether a duplicate is merged or neighbours are linked.
pub proof fn law_admission_keeps_uuids(store: StoreView, me: i64, nearest: Seq<Neighbor>, now: i64)
    requires
        store.wf(),
        store.has_id(me),
    ensures
        store.admitted(me, nearest, now).wf(),
        keeps_uuids(store, store.admitted(me, nearest, now)),
{
    let after = store.admitted(me, nearest, now);
    let dup = store.duplicates_of(me, nearest);
    if dup.len() > 0 {
        let all = heard(nearest);
        all.lemma_filter_pred(store.near(me, AUTO_MERGE_THRESHOLD), 0);
        let gone = dup[0].memory_id;
        store.lemma_absorbed(me, gone, now);
        let k = store.position_of_id(me);
        let g = store.position_of_id(gone);
        assert forall|id: i64| store.has_id(id) && after.has_id(id) implies after.row_of_id(
            id,
        ).uuid == store.row_of_id(id).uuid by {
            let o = store.position_of_id(id);
            let j = if o < g {
                o
            } else {
                o - 1
            };
            assert(o != g);
            assert(after.rows[j].id == id);
            after.lemma_position_of_id(id, j);
        }
    } else {
        let close = store.close_to(me, nearest);
        let all = heard(nearest);
        assert forall|i: int| 0 <= i < close.len() implies store.has_id(
            (#[trigger] close[i]).memory_id,
        ) && close[i].memory_id != me by {
            all.lemma_filter_pred(store.near(me, AUTO_LINK_THRESHOLD), i);
        }
        store.lemma_linked_to_each(me, close, now);
        lemma_same_places(store, after);
    }
}

/// An edit keeps the external identifier of every memory, the edited one
/// included, also where it renames.
pub proof fn law_edit_keeps_uuids(
    store: StoreView,
    mnemonic: Seq<char>,
    new_mnemonic: Option<Seq<char>>,
    add: Seq<Seq<char>>,
    remove: Seq<Seq<char>>,
    new_embedding: Option<Seq<u8>>,
    now: i64,
)
    requires
        store.wf(),
        store.edit_obstacle(mnemonic, new_mnemonic, add, remove, new_embedding) is None,
    ensures
        store.edited(mnemonic, new_mnemonic, add, remove, new_embedding, now).wf(),
        keeps_uuids(store, store.edited(mnemonic, new_mnemonic, add, remove, new_embedding, now)),
{
    let after = store.edited(mnemonic, new_mnemonic, add, remove, new_embedding, now);
    let i = store.position(mnemonic);
    assert(store.row_ok(store.rows[i]));
    store.lemma_only_one(i);
    assert forall|j: int| 0 <= j < store.rows.len() && j != i implies (
    #[trigger] store.rows[j]).mnemonic != after.rows[i].mnemonic by {
        if new_mnemonic is Some && store.rows[j].mnemonic == new_mnemonic->0 {
            assert(store.has_mnemonic(new_mnemonic->0));
        }
    }
    store.lemma_with_row(i, after.rows[i]);
    lemma_same_places(store, after);
}

/// A rating keeps the external identifier of every memory.
pub proof fn law_rate_keeps_uuids(store: StoreView, mnemonic: Seq<char>, useful: bool)
    requires
        store.wf(),
        store.has_mnemonic(mnemonic),
    ensures
        store.rated(mnemonic, useful).wf(),
        keeps_uuids(store, store.rated(mnemonic, useful)),
{
    let after = store.rated(mnemonic, useful);
    let i = store.position(mnemonic);
    assert(store.row_ok(store.rows[i]));
    store.lemma_only_one(i);
    store.lemma_with_row(i, after.rows[i]);
    lemma_same_places(store, after);
}

/// A recall keeps the external identifier of every memory.
pub proof fn law_recall_keeps_uuids(store: StoreView, names: Seq<Seq<char>>, now: i64)
    requires
        store.wf(),
    ensures
        store.recalled(names, now).wf(),
        keeps_uuids(store, store.recalled(names, now)),
{
    store.lemma_recalled(names, now);
    lemma_same_places(store, store.recalled(names, now));
}

/// Importing a document keeps the external identifier of every memory: a
/// document that the store knows by its external identifier changes the
/// memory with that identifier and no other.
pub proof fn law_import_keeps_uuids(store: StoreView, doc: ImportedView, now: i64)
    requires
        store.wf(),
    ensures
        store.with_document(doc, now).wf(),
        keeps_uuids(store, store.with_document(doc, now)),
        store.import_outcome(doc) is Ok ==> store.with_document(doc, now).has_uuid(doc.uuid),
{
    let after = store.with_document(doc, now);
    store.lemma_with_document(doc, now);
    lemma_same_places(store, after);
    match store.import_outcome(doc) {
        Ok(ImportKind::Created) => {
            assert(after.rows[store.rows.len() as int].uuid == doc.uuid);
        },
        Ok(ImportKind::Updated) => {
            assert(after.rows[store.position_of_uuid(doc.uuid)].uuid == doc.uuid);
        },
        _ => {},
    }
}

/// Linking twice is linking once: the second link of the same memories with
/// the same type changes nothing, whenever it is made.
pub proof fn law_link_is_idempotent(
    store: StoreView,
    source: Seq<char>,
    target: Seq<char>,
    kind: LinkType,
    now: i64,
    later: i64,
)
    requires
        store.wf(),
        store.has_mnemonic(source),
        store.has_mnemonic(target),
        source != target,
    ensures
        store.linked(source, target, kind, now).linked(source, target, kind, later)
            == store.linked(source, target, kind, now),
        store.linked(source, target, kind, now).has_edge(
            store.id_of(source),
            store.id_of(target),
            kind,
        ),
{
    let once = store.linked(source, target, kind, now);
    let s = store.position(source);
    let t = store.position(target);
    law_mnemonics_are_unique(store, s, t);
    assert(store.has_id(store.rows[s].id) && store.has_id(store.rows[t].id));
    store.lemma_with_edge(store.rows[s].id, store.rows[t].id, kind, now);
    assert(once.rows == store.rows);
    once.lemma_position(source, s);
    once.lemma_position(target, t);
}

/// A filter that every entry passes changes nothing.
proof fn lemma_filter_all(edges: Seq<Edge>, keep: spec_fn(Edge) -> bool)
    requires
        forall|i: int| 0 <= i < edges.len() ==> keep(#[trigger] edges[i]),
    ensures
        edges.filter(keep) == edges,
    decreases edges.len(),
{
    reveal(Seq::filter);
    if edges.len() > 0 {
        let head = edges.drop_last();
        assert forall|i: int| 0 <= i < head.len() implies keep(#[trigger] head[i]) by {
            assert(head[i] == edges[i]);
        }
        lemma_filter_all(head, keep);
        assert(head.push(edges.last()) =~= edges);
    }
}

/// Unlinking what is not linked changes nothing.
pub proof fn law_unlink_of_no_link_changes_nothing(
    store: StoreView,
    source: Seq<char>,
    target: Seq<char>,
    label: Seq<char>,
)
    requires
        store.has_mnemonic(source) && store.has_mnemonic(target) && LinkType::named(label)
            is Some ==> !store.has_edge(
            store.id_of(source),
            store.id_of(target),
            LinkType::named(label)->0,
        ),
    ensures
        store.unlinked(source, target, label) == store,
{
    if store.has_mnemonic(source) && store.has_mnemonic(target) && LinkType::named(label) is Some {
        let keep = other_than(store.id_of(source), store.id_of(target), LinkType::named(label)->0);
        assert forall|i: int| 0 <= i < store.edges.len() implies keep(
            #[trigger] store.edges[i],
        ) by {
            if !keep(store.edges[i]) {
                assert(has_triple(
                    store.edges,
                    store.id_of(source),
                    store.id_of(target),
                    LinkType::named(label)->0,
                ));
            }
        }
        lemma_filter_all(store.edges, keep);
    }
}

/// Linking a row to rows that it is linked to already changes nothing.
proof fn lemma_nothing_to_link(store: StoreView, me: i64, others: Seq<Neighbor>, now: i64)
    requires
        forall|i: int|
            0 <= i < others.len() ==> store.has_edge(
                me,
                (#[trigger] others[i]).memory_id,
                LinkType::Related,
            ),
    ensures
        store.linked_to_each(me, others, now) == store,
    decreases others.len(),
{
    if others.len() > 0 {
        let head = others.drop_last();
        assert forall|i: int| 0 <= i < head.len() implies store.has_edge(
            me,
            (#[trigger] head[i]).memory_id,
            LinkType::Related,
        ) by {
            assert(head[i] == others[i]);
        }
        lemma_nothing_to_link(store, me, head, now);
        assert(store.has_edge(me, others[others.len() - 1].memory_id, LinkType::Related));
    }
}

/// Writing a memory again keeps its links: where the write merges nothing
/// and finds no neighbour to link that is not linked already, the links of
/// the memory are those it had.
pub proof fn law_rewrite_keeps_links(
    store: StoreView,
    mnemonic: Seq<char>,
    content: Seq<char>,
    tags: Seq<Seq<char>>,
    embedding: Seq<u8>,
    uuid: Seq<char>,
    nearest: Seq<Neighbor>,
    now: i64,
)
    requires
        store.wf(),
        store.has_mnemonic(mnemonic),
        embedding.len() == EMBED_BYTES,
        store.upserted(mnemonic, content, tags, embedding, uuid, now).duplicates_of(
            store.id_of(mnemonic),
            nearest,
        ).len() == 0,
        forall|i: int|
            0 <= i < store.upserted(mnemonic, content, tags, embedding, uuid, now).close_to(
                store.id_of(mnemonic),
                nearest,
            ).len() ==> store.has_edge(
                store.id_of(mnemonic),
                (#[trigger] store.upserted(mnemonic, content, tags, embedding, uuid, now).close_to(
                    store.id_of(mnemonic),
                    nearest,
                )[i]).memory_id,
                LinkType::Related,
            ),
    ensures
        store.memorized(mnemonic, content, tags, embedding, uuid, nearest, now).links_of(mnemonic)
            == store.links_of(mnemonic),
        store.memorized(mnemonic, content, tags, embedding, uuid, nearest, now).edges
            == store.edges,
{
    let written = store.upserted(mnemonic, content, tags, embedding, uuid, now);
    let i = store.position(mnemonic);
    let me = store.id_of(mnemonic);
    assert(store.row_ok(store.rows[i]));
    store.lemma_only_one(i);
    store.lemma_with_row(i, written.rows[i]);
    assert(written.rows[i].mnemonic == mnemonic);
    written.lemma_position(mnemonic, i);
    assert(written.id_of(mnemonic) == me);
    let close = written.close_to(me, nearest);
    lemma_nothing_to_link(written, me, close, now);
    let after = store.memorized(mnemonic, content, tags, embedding, uuid, nearest, now);
    assert(after == written);
    let touching = store.edges.filter(incident_to(me));
    assert forall|k: int| 0 <= k < touching.len() implies written.shown(#[trigger] touching[k])
        == store.shown(touching[k]) by {
        lemma_filter_member(store.edges, incident_to(me), k);
        let a = choose|a: int| 0 <= a < store.edges.len() && store.edges[a] == touching[k];
        let e = store.edges[a];
        assert(store.edge_ok(e));
        let s = store.position_of_id(e.source);
        let t = store.position_of_id(e.target);
        assert(written.rows[s].id == e.source);
        assert(written.rows[t].id == e.target);
        written.lemma_position_of_id(e.source, s);
        written.lemma_position_of_id(e.target, t);
    }
    assert(touching.map_values(written.shower()) =~= touching.map_values(store.shower()));
}

/// The union of two tag lists holds every tag of the first and of the
/// second, and no other tag.
pub proof fn law_union_holds_the_tags_of_both(base: Seq<Seq<char>>, extra: Seq<Seq<char>>, t: Seq<char>)
    ensures
        union_tags(base, extra).contains(t) <==> base.contains(t) || extra.contains(t),
    decreases extra.len(),
{
    if extra.len() > 0 {
        let head = extra.drop_last();
        law_union_holds_the_tags_of_both(base, head, t);
        let before = union_tags(base, head);
        if extra.contains(t) {
            let i = choose|i: int| 0 <= i < extra.len() && extra[i] == t;
            if i < extra.len() - 1 {
                assert(head[i] == t);
            }
        }
        if head.contains(t) {
            let i = choose|i: int| 0 <= i < head.len() && head[i] == t;
            assert(extra[i] == t);
        }
        if !before.contains(extra.last()) {
            let after = before.push(extra.last());
            assert(after.last() == extra.last());
            if before.contains(t) {
                let i = choose|i: int| 0 <= i < before.len() && before[i] == t;
                assert(after[i] == t);
            }
            if after.contains(t) {
                let i = choose|i: int| 0 <= i < after.len() && after[i] == t;
                if i < before.len() {
                    assert(before[i] == t);
                }
            }
        }
        assert(extra.last() == extra[extra.len() - 1]);
    }
}

/// A write that finds a near duplicate merges it: one row fewer, the
/// duplicate gone, and the written memory holding both contents and the
/// tags of both. No link touches the duplicate any more, so the `supersedes`
/// link to it is not there either.
pub proof fn law_auto_merge(store: StoreView, me: i64, nearest: Seq<Neighbor>, now: i64)
    requires
        store.wf(),
        store.has_id(me),
        store.duplicates_of(me, nearest).len() > 0,
    ensures
        ({
            let gone = store.duplicates_of(me, nearest)[0].memory_id;
            let after = store.admitted(me, nearest, now);
            &&& after.wf()
            &&& store.has_id(gone)
            &&& gone != me
            &&& after.rows.len() == store.rows.len() - 1
            &&& !after.has_id(gone)
            &&& !after.has_mnemonic(store.row_of_id(gone).mnemonic)
            &&& after.has_id(me)
            &&& after.row_of_id(me).content == store.row_of_id(me).content + "\n\n"@
                + store.row_of_id(gone).content
            &&& after.row_of_id(me).tags == union_tags(
                store.row_of_id(me).tags,
                store.row_of_id(gone).tags,
            )
            &&& after.row_of_id(me).mnemonic == store.row_of_id(me).mnemonic
            &&& forall|i: int|
                0 <= i < after.edges.len() ==> (#[trigger] after.edges[i]).source != gone
                    && after.edges[i].target != gone
            &&& store.admission(me, nearest).merged_with == Some(store.row_of_id(gone).mnemonic)
        }),
{
    let all = heard(nearest);
    all.lemma_filter_pred(store.near(me, AUTO_MERGE_THRESHOLD), 0);
    let gone = store.duplicates_of(me, nearest)[0].memory_id;
    let after = store.admitted(me, nearest, now);
    store.lemma_absorbed(me, gone, now);
    let k = store.position_of_id(me);
    let g = store.position_of_id(gone);
    let j = if k < g {
        k
    } else {
        k - 1
    };
    assert(after.rows[j].id == me);
    after.lemma_position_of_id(me, j);
    assert forall|i: int| 0 <= i < after.edges.len() implies (#[trigger] after.edges[i]).source
        != gone && after.edges[i].target != gone by {
        assert(after.edge_ok(after.edges[i]));
    }
}

/// The identifier that a link's end has after the row `gone` was absorbed
/// by the row `keep`.
pub open spec fn end_after_merge(id: i64, keep: i64, gone: i64) -> i64 {
    if id == gone {
        keep
    } else {
        id
    }
}

/// A merge passes the links of the absorbed memory to the survivor. Every
/// link afterwards is a link from before with the absorbed memory replaced by
/// the survivor at either end; and every link from before is there in that
/// form afterwards, unless it would join the survivor to itself.
pub proof fn law_merge_transfers_links(store: StoreView, keep: i64, gone: i64, now: i64)
    requires
        store.wf(),
        store.has_id(keep),
        store.has_id(gone),
        keep != gone,
    ensures
        forall|i: int|
            0 <= i < store.absorbed(keep, gone, now).edges.len() ==> has_triple(
                store.edges,
                (#[trigger] store.absorbed(keep, gone, now).edges[i]).source,
                store.absorbed(keep, gone, now).edges[i].target,
                store.absorbed(keep, gone, now).edges[i].kind,
            ) || has_triple(
                store.edges,
                gone,
                store.absorbed(keep, gone, now).edges[i].target,
                store.absorbed(keep, gone, now).edges[i].kind,
            ) || has_triple(
                store.edges,
                store.absorbed(keep, gone, now).edges[i].source,
                gone,
                store.absorbed(keep, gone, now).edges[i].kind,
            ),
        forall|i: int|
            0 <= i < store.edges.len() && end_after_merge(
                (#[trigger] store.edges[i]).source,
                keep,
                gone,
            ) != end_after_merge(store.edges[i].target, keep, gone) ==> store.absorbed(
                keep,
                gone,
                now,
            ).has_edge(
                end_after_merge(store.edges[i].source, keep, gone),
                end_after_merge(store.edges[i].target, keep, gone),
                store.edges[i].kind,
            ),
{
    let edges = store.edges;
    let moved = edges.map_values(resourced(edges, keep, gone));
    let landed = moved.map_values(retargeted(moved, keep, gone));
    let stays = settled(gone);
    let after = store.absorbed(keep, gone, now);
    assert(after.edges == landed.filter(stays));
    assert forall|i: int| 0 <= i < after.edges.len() implies has_triple(
        edges,
        (#[trigger] after.edges[i]).source,
        after.edges[i].target,
        after.edges[i].kind,
    ) || has_triple(edges, gone, after.edges[i].target, after.edges[i].kind) || has_triple(
        edges,
        after.edges[i].source,
        gone,
        after.edges[i].kind,
    ) by {
        lemma_filter_member(landed, stays, i);
        let a = choose|a: int| 0 <= a < landed.len() && landed[a] == after.edges[i];
        assert(stays(landed[a]));
        assert(store.edge_ok(edges[a]));
        let o = edges[a];
        assert(moved[a].target == o.target && moved[a].kind == o.kind);
        assert(landed[a].source == moved[a].source && landed[a].kind == o.kind);
    }
    assert forall|i: int|
        0 <= i < edges.len() && end_after_merge((#[trigger] edges[i]).source, keep, gone)
            != end_after_merge(edges[i].target, keep, gone) implies after.has_edge(
        end_after_merge(edges[i].source, keep, gone),
        end_after_merge(edges[i].target, keep, gone),
        edges[i].kind,
    ) by {
        let o = edges[i];
        assert(store.edge_ok(o));
        let s = end_after_merge(o.source, keep, gone);
        let t = end_after_merge(o.target, keep, gone);
        // A link from the new source to the old target is there once sources have moved.
        assert(has_triple(moved, s, o.target, o.kind)) by {
            if o.source == gone && has_triple(edges, keep, o.target, o.kind) {
                let j = choose|j: int|
                    0 <= j < edges.len() && (#[trigger] edges[j]).source == keep && edges[j].target
                        == o.target && edges[j].kind == o.kind;
                assert(moved[j] == edges[j]);
            } else {
                assert(moved[i].source == s && moved[i].target == o.target && moved[i].kind
                    == o.kind);
            }
        }
        let j = choose|j: int|
            0 <= j < moved.len() && (#[trigger] moved[j]).source == s && moved[j].target
                == o.target && moved[j].kind == o.kind;
        // And one to the new target once targets have moved.
        assert(has_triple(landed, s, t, o.kind)) by {
            if o.target == gone && has_triple(moved, s, keep, o.kind) {
                let k = choose|k: int|
                    0 <= k < moved.len() && (#[trigger] moved[k]).source == s && moved[k].target
                        == keep && moved[k].kind == o.kind;
                assert(landed[k] == moved[k]);
            } else {
                assert(landed[j].source == s && landed[j].target == t && landed[j].kind == o.kind);
            }
        }
        let k = choose|k: int|
            0 <= k < landed.len() && (#[trigger] landed[k]).source == s && landed[k].target == t
                && landed[k].kind == o.kind;
        assert(stays(landed[k]));
        lemma_filter_holds(landed, stays, k);
        let m = choose|m: int|
            0 <= m < landed.filter(stays).len() && landed.filter(stays)[m] == landed[k];
        assert(after.edges[m].source == s && after.edges[m].target == t && after.edges[m].kind
            == o.kind);
    }
}

/// A recall counts: each memory that is handed back has been recalled once
/// more, and last at the time of this recall, or at the later time that it
/// held, so that the time of the last recall never goes back; every other
/// memory is as it was. What is handed back shows the counters as they were
/// before.
pub proof fn law_recall_counts(
    store: StoreView,
    names: Seq<Seq<char>>,
    now: i64,
    mnemonic: Seq<char>,
)
    requires
        store.wf(),
        store.has_mnemonic(mnemonic),
    ensures
        store.recalled(names, now).has_mnemonic(mnemonic),
        names.contains(mnemonic) ==> store.recalled(names, now).row(mnemonic) == touched(
            store.row(mnemonic),
            now,
        ),
        names.contains(mnemonic) && store.row(mnemonic).recall_count < i64::MAX
            ==> store.recalled(names, now).row(mnemonic).recall_count == store.row(
            mnemonic,
        ).recall_count + 1,
        names.contains(mnemonic) ==> store.recalled(names, now).row(mnemonic).last_recalled_at
            == Some(later_of(store.row(mnemonic).last_recalled_at, now)),
        names.contains(mnemonic) ==> store.recalled(names, now).row(
            mnemonic,
        ).last_recalled_at->0 >= now,
        names.contains(mnemonic) && store.row(mnemonic).last_recalled_at is Some
            ==> store.recalled(names, now).row(mnemonic).last_recalled_at->0 >= store.row(
            mnemonic,
        ).last_recalled_at->0,
        !names.contains(mnemonic) ==> store.recalled(names, now).row(mnemonic) == store.row(
            mnemonic,
        ),
        forall|n: Neighbor|
            store.has_id(n.memory_id) ==> (#[trigger] store.candidate(n)).recall_count
                == store.row_of_id(n.memory_id).recall_count && store.candidate(
                n,
            ).last_recalled_at == store.row_of_id(n.memory_id).last_recalled_at,
{
    let after = store.recalled(names, now);
    store.lemma_recalled(names, now);
    let i = store.position(mnemonic);
    assert(after.rows[i].mnemonic == mnemonic);
    after.lemma_position(mnemonic, i);
}

} // verus!
