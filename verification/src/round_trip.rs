//! Export and import go together: what is exported from one store and
//! imported into an empty one is there again, and a second import finds
//! nothing to do.

use vstd::prelude::*;
use crate::exchange::{ExportedLinkView, ExportedView, leaves};
use crate::import::{ImportFailure, ImportResult, ImportState, ImportedView, after_links};
use crate::laws::law_mnemonics_are_unique;
use crate::links::{lemma_filter_holds, lemma_filter_member};
use crate::model::{
    Edge, LinkType, RowView, StoreError, lemma_link_type_round_trip, EMBED_BYTES,
};
use crate::store::{StoreView, has_triple};
use crate::text::{lemma_text_lt_irreflexive, text_lt};

verus! {

/// Whether `imports` are the documents `docs`, each with an embedding for
/// its mnemonic.
pub open spec fn made_from(imports: Seq<ImportedView>, docs: Seq<ExportedView>) -> bool {
    &&& imports.len() == docs.len()
    &&& forall|i: int|
        0 <= i < docs.len() ==> {
            &&& (#[trigger] imports[i]).uuid == docs[i].uuid
            &&& imports[i].mnemonic == docs[i].mnemonic
            &&& imports[i].tags == docs[i].tags
            &&& imports[i].links == docs[i].links
            &&& imports[i].content == docs[i].content
            &&& imports[i].embedding is Some
            &&& imports[i].embedding->0.len() == EMBED_BYTES
        }
}

/// Whether `imports` are the documents `docs`, with or without embeddings.
pub open spec fn same_documents(imports: Seq<ImportedView>, docs: Seq<ExportedView>) -> bool {
    &&& imports.len() == docs.len()
    &&& forall|i: int|
        0 <= i < docs.len() ==> {
            &&& (#[trigger] imports[i]).uuid == docs[i].uuid
            &&& imports[i].mnemonic == docs[i].mnemonic
            &&& imports[i].tags == docs[i].tags
            &&& imports[i].links == docs[i].links
            &&& imports[i].content == docs[i].content
        }
}

/// A store has fewer rows than there are identifiers.
proof fn lemma_rows_are_counted(store: StoreView, i: int)
    requires
        store.wf(),
        0 <= i < store.rows.len(),
    ensures
        store.rows[i].id >= i + 1,
    decreases i,
{
    assert(store.row_ok(store.rows[i]));
    if i > 0 {
        lemma_rows_are_counted(store, i - 1);
        assert(store.rows[i - 1].id < store.rows[i].id);
    }
}

/// The documents of an export differ in mnemonic and external identifier.
proof fn lemma_documents_differ(store: StoreView, docs: Seq<ExportedView>, i: int, j: int)
    requires
        store.wf(),
        store.is_export(docs, None),
        0 <= i < j < docs.len(),
    ensures
        docs[i].mnemonic != docs[j].mnemonic,
        docs[i].uuid != docs[j].uuid,
{
    assert(text_lt(docs[i].mnemonic, docs[j].mnemonic));
    lemma_text_lt_irreflexive(docs[i].mnemonic);
    let a = store.position(docs[i].mnemonic);
    let b = store.position(docs[j].mnemonic);
    assert(docs[i] == store.exported(store.row(docs[i].mnemonic)));
    assert(docs[j] == store.exported(store.row(docs[j].mnemonic)));
    assert(store.rows[a].mnemonic != store.rows[b].mnemonic);
    law_mnemonics_are_unique(store, a, b);
}

/// Where the import of exported documents into an empty store stands after
/// the rows of the first `n`: each is a new row, in the order of the
/// documents.
proof fn lemma_rows_created(
    store: StoreView,
    docs: Seq<ExportedView>,
    imports: Seq<ImportedView>,
    now: i64,
    n: int,
)
    requires
        store.wf(),
        store.is_export(docs, None),
        made_from(imports, docs),
        docs.len() <= usize::MAX,
        0 <= n <= docs.len(),
    ensures
        ({
            let state = StoreView::empty().after_rows(imports.take(n), now);
            &&& state.store.wf()
            &&& state.store.rows.len() == n
            &&& state.store.next_id == n + 1
            &&& state.store.edges == Seq::<Edge>::empty()
            &&& state.result == (ImportResult { created: n as usize, updated: 0, unchanged: 0 })
            &&& state.failures == Seq::<ImportFailure>::empty()
            &&& forall|j: int|
                0 <= j < n ==> {
                    &&& (#[trigger] state.store.rows[j]).uuid == docs[j].uuid
                    &&& state.store.rows[j].mnemonic == docs[j].mnemonic
                    &&& state.store.rows[j].content == docs[j].content
                    &&& state.store.rows[j].tags == docs[j].tags
                    &&& state.store.rows[j].embedding == imports[j].embedding->0
                }
        }),
    decreases n,
{
    if n == 0 {
        assert(imports.take(0) =~= Seq::empty());
    } else {
        lemma_rows_created(store, docs, imports, now, n - 1);
        let before = StoreView::empty().after_rows(imports.take(n - 1), now);
        let doc = imports[n - 1];
        assert(imports.take(n).drop_last() =~= imports.take(n - 1));
        assert(imports.take(n).last() == doc);
        assert(!before.store.has_uuid(doc.uuid)) by {
            if before.store.has_uuid(doc.uuid) {
                let j = before.store.position_of_uuid(doc.uuid);
                lemma_documents_differ(store, docs, j, n - 1);
            }
        }
        assert(!before.store.has_mnemonic(doc.mnemonic)) by {
            if before.store.has_mnemonic(doc.mnemonic) {
                let j = before.store.position(doc.mnemonic);
                lemma_documents_differ(store, docs, j, n - 1);
            }
        }
        assert(docs.len() < i64::MAX) by {
            store.rows.lemma_filter_len(store.exporting(None));
            if store.rows.len() > 0 {
                lemma_rows_are_counted(store, store.rows.len() - 1);
                assert(store.row_ok(store.rows[store.rows.len() - 1]));
            }
        }
        before.store.lemma_with_document(doc, now);
        let state = StoreView::empty().after_rows(imports.take(n), now);
        assert(state.store.rows =~= before.store.rows.push(
            before.store.fresh_row(
                doc.uuid,
                doc.mnemonic,
                doc.content,
                doc.tags,
                doc.embedding->0,
                now,
            ),
        ));
    }
}

/// Where an import stands after the rows of the first `n` documents, each
/// of which the store has by its external identifier with the same body:
/// nothing has changed, and all were counted as unchanged.
proof fn lemma_rows_unchanged(store: StoreView, imports: Seq<ImportedView>, now: i64, n: int)
    requires
        imports.len() <= usize::MAX,
        0 <= n <= imports.len(),
        forall|i: int|
            0 <= i < imports.len() ==> store.has_uuid((#[trigger] imports[i]).uuid)
                && store.row_of_uuid(imports[i].uuid).content == imports[i].content,
    ensures
        store.after_rows(imports.take(n), now) == (ImportState {
            store,
            result: ImportResult { created: 0, updated: 0, unchanged: n as usize },
            failures: Seq::empty(),
        }),
    decreases n,
{
    if n == 0 {
        assert(imports.take(0) =~= Seq::empty());
    } else {
        lemma_rows_unchanged(store, imports, now, n - 1);
        assert(imports.take(n).drop_last() =~= imports.take(n - 1));
        assert(imports.take(n).last() == imports[n - 1]);
    }
}

/// Whether a link of the document `source` can be imported into any store:
/// its type has a known name, and it does not lead back to the document.
pub open spec fn importable(source: Seq<char>, l: ExportedLinkView) -> bool {
    LinkType::named(l.link_type) is Some && l.target != source
}

/// Whether `e` is the link that the link `l` of the document `source`
/// becomes in the store: the store has both ends, and `e` joins them with
/// the type that `l` names.
pub open spec fn link_of_document(
    store: StoreView,
    source: Seq<char>,
    l: ExportedLinkView,
    e: Edge,
) -> bool {
    &&& store.has_uuid(source)
    &&& store.has_uuid(l.target)
    &&& e.source == store.row_of_uuid(source).id
    &&& e.target == store.row_of_uuid(l.target).id
    &&& e.kind == LinkType::named(l.link_type)->0
}

/// Whether `e` is what one of `links`, the links of the document `source`,
/// becomes in the store.
pub open spec fn from_links(
    store: StoreView,
    source: Seq<char>,
    links: Seq<ExportedLinkView>,
    e: Edge,
) -> bool {
    exists|k: int| 0 <= k < links.len() && link_of_document(store, source, #[trigger] links[k], e)
}

/// Whether `e` is what a link of one of the first `n` documents becomes in
/// the store.
pub open spec fn from_documents(
    store: StoreView,
    imports: Seq<ImportedView>,
    n: int,
    e: Edge,
) -> bool {
    exists|j: int, k: int|
        0 <= j < n && 0 <= k < imports[j].links.len() && link_of_document(
            store,
            imports[j].uuid,
            #[trigger] imports[j].links[k],
            e,
        )
}

/// Links that can be imported meet no obstacle, keep all rows and all links
/// that were there, and each of them whose two ends the store has is there
/// afterwards.
proof fn lemma_links_imported(
    store: StoreView,
    source: Seq<char>,
    links: Seq<ExportedLinkView>,
    now: i64,
)
    requires
        store.wf(),
        forall|k: int| 0 <= k < links.len() ==> importable(source, #[trigger] links[k]),
    ensures
        ({
            let after = store.with_document_links(source, links, now);
            &&& after.1 is None
            &&& after.0.wf()
            &&& after.0.rows == store.rows
            &&& after.0.next_id == store.next_id
            &&& after.0.boost_tags == store.boost_tags
            &&& forall|s: i64, t: i64, kind: LinkType|
                store.has_edge(s, t, kind) ==> #[trigger] after.0.has_edge(s, t, kind)
            &&& forall|k: int|
                0 <= k < links.len() && store.has_uuid(source) && store.has_uuid(
                    (#[trigger] links[k]).target,
                ) ==> after.0.has_edge(
                    store.row_of_uuid(source).id,
                    store.row_of_uuid(links[k].target).id,
                    LinkType::named(links[k].link_type)->0,
                )
            &&& forall|i: int|
                0 <= i < after.0.edges.len() ==> has_triple(
                    store.edges,
                    (#[trigger] after.0.edges[i]).source,
                    after.0.edges[i].target,
                    after.0.edges[i].kind,
                ) || from_links(store, source, links, after.0.edges[i])
        }),
    decreases links.len(),
{
    if links.len() == 0 {
        let after = store.with_document_links(source, links, now);
        assert forall|i: int| 0 <= i < after.0.edges.len() implies has_triple(
            store.edges,
            (#[trigger] after.0.edges[i]).source,
            after.0.edges[i].target,
            after.0.edges[i].kind,
        ) by {}
    }
    if links.len() > 0 {
        let head = links.drop_last();
        let l = links[links.len() - 1];
        assert forall|k: int| 0 <= k < head.len() implies importable(source, #[trigger] head[k]) by {
            assert(head[k] == links[k]);
        }
        lemma_links_imported(store, source, head, now);
        let mid = store.with_document_links(source, head, now).0;
        let after = store.with_document_links(source, links, now);
        assert(importable(source, l));
        mid.lemma_with_document_link(source, l, now);
        assert(after == mid.with_document_link(source, l, now));
        assert forall|s: i64, t: i64, kind: LinkType| mid.has_edge(s, t, kind) implies (
        #[trigger] after.0.has_edge(s, t, kind)) by {
            let i = choose|i: int|
                0 <= i < mid.edges.len() && (#[trigger] mid.edges[i]).source == s
                    && mid.edges[i].target == t && mid.edges[i].kind == kind;
            assert(after.0.edges[i] == mid.edges[i]);
        }
        assert forall|k: int|
            0 <= k < links.len() && store.has_uuid(source) && store.has_uuid(
                (#[trigger] links[k]).target,
            ) implies after.0.has_edge(
            store.row_of_uuid(source).id,
            store.row_of_uuid(links[k].target).id,
            LinkType::named(links[k].link_type)->0,
        ) by {
            if k < head.len() {
                assert(head[k] == links[k]);
                assert(mid.has_edge(
                    store.row_of_uuid(source).id,
                    store.row_of_uuid(links[k].target).id,
                    LinkType::named(links[k].link_type)->0,
                ));
            } else {
                let a = store.position_of_uuid(source);
                let b = store.position_of_uuid(l.target);
                assert(mid.rows[a].uuid == source && mid.rows[b].uuid == l.target);
                mid.lemma_position_of_uuid(source, a);
                mid.lemma_position_of_uuid(l.target, b);
                assert(mid.has_id(mid.rows[a].id) && mid.has_id(mid.rows[b].id));
                assert(mid.rows[a].id != mid.rows[b].id) by {
                    if a < b {
                        assert(mid.rows[a].id < mid.rows[b].id);
                    } else if b < a {
                        assert(mid.rows[b].id < mid.rows[a].id);
                    }
                }
                mid.lemma_with_edge(
                    mid.rows[a].id,
                    mid.rows[b].id,
                    LinkType::named(l.link_type)->0,
                    now,
                );
            }
        }
        lemma_same_rows(store, mid);
        assert forall|i: int| 0 <= i < after.0.edges.len() implies has_triple(
            store.edges,
            (#[trigger] after.0.edges[i]).source,
            after.0.edges[i].target,
            after.0.edges[i].kind,
        ) || from_links(store, source, links, after.0.edges[i]) by {
            let e = after.0.edges[i];
            if i < mid.edges.len() {
                assert(e == mid.edges[i]);
                if !has_triple(store.edges, e.source, e.target, e.kind) {
                    assert(from_links(store, source, head, e));
                    let k = choose|k: int|
                        0 <= k < head.len() && link_of_document(store, source, #[trigger] head[k], e);
                    assert(head[k] == links[k]);
                    assert(link_of_document(store, source, links[k], e));
                }
            } else {
                assert(link_of_document(store, source, links[links.len() - 1], e));
            }
        }
    }
}

/// Where an import stands after the links of the first `n` documents, all
/// of which can be imported: no failure was added, no row has changed, and
/// every link of these documents whose two ends the store has is there.
proof fn lemma_all_links_imported(
    state: ImportState,
    imports: Seq<ImportedView>,
    now: i64,
    n: int,
)
    requires
        state.store.wf(),
        0 <= n <= imports.len(),
        forall|j: int, k: int|
            0 <= j < imports.len() && 0 <= k < imports[j].links.len() ==> importable(
                imports[j].uuid,
                #[trigger] imports[j].links[k],
            ),
    ensures
        ({
            let after = after_links(state, imports.take(n), now);
            &&& after.store.wf()
            &&& after.store.rows == state.store.rows
            &&& after.store.next_id == state.store.next_id
            &&& after.store.boost_tags == state.store.boost_tags
            &&& after.result == state.result
            &&& after.failures == state.failures
            &&& forall|s: i64, t: i64, kind: LinkType|
                state.store.has_edge(s, t, kind) ==> #[trigger] after.store.has_edge(s, t, kind)
            &&& forall|j: int, k: int|
                0 <= j < n && 0 <= k < imports[j].links.len() && state.store.has_uuid(
                    imports[j].uuid,
                ) && state.store.has_uuid((#[trigger] imports[j].links[k]).target)
                    ==> after.store.has_edge(
                    state.store.row_of_uuid(imports[j].uuid).id,
                    state.store.row_of_uuid(imports[j].links[k].target).id,
                    LinkType::named(imports[j].links[k].link_type)->0,
                )
            &&& forall|i: int|
                0 <= i < after.store.edges.len() ==> has_triple(
                    state.store.edges,
                    (#[trigger] after.store.edges[i]).source,
                    after.store.edges[i].target,
                    after.store.edges[i].kind,
                ) || from_documents(state.store, imports, n, after.store.edges[i])
        }),
    decreases n,
{
    if n == 0 {
        assert(imports.take(0) =~= Seq::empty());
        let after = after_links(state, imports.take(0), now);
        assert forall|i: int| 0 <= i < after.store.edges.len() implies has_triple(
            state.store.edges,
            (#[trigger] after.store.edges[i]).source,
            after.store.edges[i].target,
            after.store.edges[i].kind,
        ) by {}
    } else {
        lemma_all_links_imported(state, imports, now, n - 1);
        let before = after_links(state, imports.take(n - 1), now);
        let doc = imports[n - 1];
        assert(imports.take(n).drop_last() =~= imports.take(n - 1));
        assert(imports.take(n).last() == doc);
        assert forall|k: int| 0 <= k < doc.links.len() implies importable(
            doc.uuid,
            #[trigger] doc.links[k],
        ) by {
            assert(importable(imports[n - 1].uuid, imports[n - 1].links[k]));
        }
        lemma_links_imported(before.store, doc.uuid, doc.links, now);
        let after = after_links(state, imports.take(n), now);
        assert(after.store == before.store.with_document_links(doc.uuid, doc.links, now).0);
        lemma_same_rows(state.store, before.store);
        assert forall|j: int, k: int|
            0 <= j < n && 0 <= k < imports[j].links.len() && state.store.has_uuid(
                imports[j].uuid,
            ) && state.store.has_uuid((#[trigger] imports[j].links[k]).target) implies after.store.has_edge(

            state.store.row_of_uuid(imports[j].uuid).id,
            state.store.row_of_uuid(imports[j].links[k].target).id,
            LinkType::named(imports[j].links[k].link_type)->0,
        ) by {
            if j < n - 1 {
                assert(before.store.has_edge(
                    state.store.row_of_uuid(imports[j].uuid).id,
                    state.store.row_of_uuid(imports[j].links[k].target).id,
                    LinkType::named(imports[j].links[k].link_type)->0,
                ));
            } else {
                assert(before.store.has_uuid(doc.uuid));
                assert(before.store.has_uuid(doc.links[k].target));
            }
        }
        assert forall|i: int| 0 <= i < after.store.edges.len() implies has_triple(
            state.store.edges,
            (#[trigger] after.store.edges[i]).source,
            after.store.edges[i].target,
            after.store.edges[i].kind,
        ) || from_documents(state.store, imports, n, after.store.edges[i]) by {
            let e = after.store.edges[i];
            if has_triple(before.store.edges, e.source, e.target, e.kind) {
                let a = choose|a: int|
                    0 <= a < before.store.edges.len() && (#[trigger] before.store.edges[a]).source
                        == e.source && before.store.edges[a].target == e.target
                        && before.store.edges[a].kind == e.kind;
                let earlier = before.store.edges[a];
                if !has_triple(state.store.edges, e.source, e.target, e.kind) {
                    assert(from_documents(state.store, imports, n - 1, earlier));
                    let (j, k) = choose|j: int, k: int|
                        0 <= j < n - 1 && 0 <= k < imports[j].links.len() && link_of_document(
                            state.store,
                            imports[j].uuid,
                            #[trigger] imports[j].links[k],
                            earlier,
                        );
                    assert(link_of_document(state.store, imports[j].uuid, imports[j].links[k], e));
                }
            } else {
                assert(from_links(before.store, doc.uuid, doc.links, e));
                let k = choose|k: int|
                    0 <= k < doc.links.len() && link_of_document(
                        before.store,
                        doc.uuid,
                        #[trigger] doc.links[k],
                        e,
                    );
                assert(link_of_document(
                    state.store,
                    imports[n - 1].uuid,
                    imports[n - 1].links[k],
                    e,
                ));
            }
        }
    }
}

/// Two well-formed stores with the same rows find the same rows under the
/// same identifiers.
proof fn lemma_same_rows(a: StoreView, b: StoreView)
    requires
        a.wf(),
        b.wf(),
        a.rows == b.rows,
    ensures
        forall|uuid: Seq<char>| a.has_uuid(uuid) == b.has_uuid(uuid),
        forall|uuid: Seq<char>| a.has_uuid(uuid) ==> a.row_of_uuid(uuid) == b.row_of_uuid(uuid),
        forall|m: Seq<char>| a.has_mnemonic(m) == b.has_mnemonic(m),
        forall|m: Seq<char>| a.has_mnemonic(m) ==> a.row(m) == b.row(m),
{
    assert forall|uuid: Seq<char>| a.has_uuid(uuid) implies a.row_of_uuid(uuid) == b.row_of_uuid(
        uuid,
    ) by {
        let i = a.position_of_uuid(uuid);
        b.lemma_position_of_uuid(uuid, i);
    }
    assert forall|m: Seq<char>| a.has_mnemonic(m) implies a.row(m) == b.row(m) by {
        let i = a.position(m);
        b.lemma_position(m, i);
    }
}

/// Whether `again`, a link of the store `second`, is the link `link` of
/// `store` over again: it joins the memories of `second` that have the
/// external identifiers of the two ends of `link`, with the same type.
pub open spec fn same_link_again(store: StoreView, second: StoreView, link: Edge, again: Edge) -> bool {
    &&& again.source == second.row_of_uuid(store.row_of_id(link.source).uuid).id
    &&& again.target == second.row_of_uuid(store.row_of_id(link.target).uuid).id
    &&& again.kind == link.kind
}

/// Whether `again`, a link of the store `second`, is one of the links of
/// `store` over again.
pub open spec fn is_link_again(store: StoreView, second: StoreView, again: Edge) -> bool {
    exists|k: int|
        0 <= k < store.edges.len() && same_link_again(store, second, #[trigger] store.edges[k], again)
}

/// Export, then import: the documents that one store exports, imported
/// into an empty store with an embedding for each, all become new memories,
/// as many as the first store holds, and nothing fails. Every memory of the
/// first store is in the second under its mnemonic, with its external
/// identifier, content and tags, and with the embedding that was handed in
/// with its document. Every link of the first store joins the same memories
/// in the second, with the same type, and the second store has no link
/// besides these. A second import of the same documents, with or without
/// embeddings, finds them all unchanged and changes nothing.
pub proof fn law_export_import_round_trip(
    store: StoreView,
    docs: Seq<ExportedView>,
    imports: Seq<ImportedView>,
    again: Seq<ImportedView>,
    now: i64,
    later: i64,
)
    requires
        store.wf(),
        store.is_export(docs, None),
        made_from(imports, docs),
        same_documents(again, docs),
        docs.len() <= usize::MAX,
    ensures
        ({
            let first = StoreView::empty().imported(imports, now);
            let second = first.store.imported(again, later);
            &&& first.store.wf()
            &&& first.result == (ImportResult {
                created: store.rows.len() as usize,
                updated: 0,
                unchanged: 0,
            })
            &&& first.failures.len() == 0
            &&& first.store.rows.len() == store.rows.len()
            &&& forall|m: Seq<char>|
                store.has_mnemonic(m) ==> {
                    &&& #[trigger] first.store.has_mnemonic(m)
                    &&& first.store.row(m).uuid == store.row(m).uuid
                    &&& first.store.row(m).content == store.row(m).content
                    &&& first.store.row(m).tags == store.row(m).tags
                }
            &&& forall|j: int|
                0 <= j < docs.len() ==> first.store.row((#[trigger] docs[j]).mnemonic).embedding
                    == imports[j].embedding->0
            &&& forall|i: int|
                0 <= i < store.edges.len() ==> first.store.has_edge(
                    first.store.row_of_uuid(store.row_of_id((#[trigger] store.edges[i]).source).uuid).id,
                    first.store.row_of_uuid(store.row_of_id(store.edges[i].target).uuid).id,
                    store.edges[i].kind,
                )
            &&& forall|i: int|
                0 <= i < first.store.edges.len() ==> is_link_again(
                    store,
                    first.store,
                    #[trigger] first.store.edges[i],
                )
            &&& second.store == first.store
            &&& second.result == (ImportResult {
                created: 0,
                updated: 0,
                unchanged: store.rows.len() as usize,
            })
            &&& second.failures.len() == 0
        }),
{
    let n = docs.len() as int;
    let keep = store.exporting(None);
    assert(store.rows.filter(keep) == store.rows) by {
        lemma_keep_all(store.rows, keep);
    }
    assert(imports.take(n) =~= imports);
    assert(again.take(n) =~= again);
    lemma_rows_created(store, docs, imports, now, n);
    let midway = StoreView::empty().after_rows(imports, now);
    // Every link of every document can be imported.
    assert forall|j: int, k: int|
        0 <= j < imports.len() && 0 <= k < imports[j].links.len() implies importable(
        imports[j].uuid,
        #[trigger] imports[j].links[k],
    ) by {
        lemma_exported_link(store, docs, j, k);
    }
    assert forall|j: int, k: int|
        0 <= j < again.len() && 0 <= k < again[j].links.len() implies importable(
        again[j].uuid,
        #[trigger] again[j].links[k],
    ) by {
        lemma_exported_link(store, docs, j, k);
    }
    lemma_all_links_imported(midway, imports, now, n);
    let first = StoreView::empty().imported(imports, now);
    assert(first == after_links(midway, imports, now));
    lemma_same_rows(midway.store, first.store);
    // The rows are there again.
    assert forall|m: Seq<char>| store.has_mnemonic(m) implies {
        &&& #[trigger] first.store.has_mnemonic(m)
        &&& first.store.row(m).uuid == store.row(m).uuid
        &&& first.store.row(m).content == store.row(m).content
        &&& first.store.row(m).tags == store.row(m).tags
    } by {
        let j = choose|j: int| 0 <= j < docs.len() && (#[trigger] docs[j]).mnemonic == m;
        assert(docs[j] == store.exported(store.row(m)));
        assert(first.store.rows[j].mnemonic == m);
        first.store.lemma_position(m, j);
    }
    // The links are there again.
    assert forall|i: int| 0 <= i < store.edges.len() implies first.store.has_edge(
        first.store.row_of_uuid(store.row_of_id((#[trigger] store.edges[i]).source).uuid).id,
        first.store.row_of_uuid(store.row_of_id(store.edges[i].target).uuid).id,
        store.edges[i].kind,
    ) by {
        let e = store.edges[i];
        assert(store.edge_ok(e));
        let from = store.row_of_id(e.source);
        let to = store.row_of_id(e.target);
        let j = choose|j: int| 0 <= j < docs.len() && (#[trigger] docs[j]).mnemonic == from.mnemonic;
        let t = choose|t: int| 0 <= t < docs.len() && (#[trigger] docs[t]).mnemonic == to.mnemonic;
        store.lemma_position(from.mnemonic, store.position_of_id(e.source));
        store.lemma_position(to.mnemonic, store.position_of_id(e.target));
        assert(docs[j] == store.exported(from));
        assert(docs[t] == store.exported(to));
        let out = store.edges.filter(leaves(from.id));
        lemma_filter_holds(store.edges, leaves(from.id), i);
        let k = choose|k: int| 0 <= k < out.len() && out[k] == e;
        assert(docs[j].links[k] == store.exported_link(e));
        assert(imports[j].links[k] == store.exported_link(e));
        lemma_link_type_round_trip(e.kind);
        assert(midway.store.rows[j].uuid == from.uuid);
        assert(midway.store.rows[t].uuid == to.uuid);
        midway.store.lemma_position_of_uuid(from.uuid, j);
        midway.store.lemma_position_of_uuid(to.uuid, t);
        assert(midway.store.has_uuid(imports[j].uuid));
        assert(midway.store.has_uuid(imports[j].links[k].target));
    }
    lemma_embeddings_kept(store, docs, imports, now);
    lemma_no_further_link(store, docs, imports, now);
    // The second import.
    assert forall|i: int| 0 <= i < again.len() implies first.store.has_uuid(
        (#[trigger] again[i]).uuid,
    ) && first.store.row_of_uuid(again[i].uuid).content == again[i].content by {
        assert(first.store.rows[i].uuid == docs[i].uuid);
        first.store.lemma_position_of_uuid(again[i].uuid, i);
    }
    lemma_rows_unchanged(first.store, again, later, n);
    let resting = first.store.after_rows(again, later);
    assert forall|j: int, k: int|
        0 <= j < again.len() && 0 <= k < again[j].links.len() && first.store.has_uuid(
            again[j].uuid,
        ) && first.store.has_uuid((#[trigger] again[j].links[k]).target) implies first.store.has_edge(

        first.store.row_of_uuid(again[j].uuid).id,
        first.store.row_of_uuid(again[j].links[k].target).id,
        LinkType::named(again[j].links[k].link_type)->0,
    ) by {
        assert(imports[j].links[k] == again[j].links[k]);
        assert(midway.store.has_uuid(imports[j].uuid));
        assert(midway.store.has_uuid(imports[j].links[k].target));
    }
    lemma_all_links_present(resting, again, later, n);
}

/// After the import of exported documents into an empty store, each memory
/// holds the embedding that came with its document.
proof fn lemma_embeddings_kept(
    store: StoreView,
    docs: Seq<ExportedView>,
    imports: Seq<ImportedView>,
    now: i64,
)
    requires
        store.wf(),
        store.is_export(docs, None),
        made_from(imports, docs),
        docs.len() <= usize::MAX,
    ensures
        forall|j: int|
            0 <= j < docs.len() ==> StoreView::empty().imported(imports, now).store.row(
                (#[trigger] docs[j]).mnemonic,
            ).embedding == imports[j].embedding->0,
{
    let n = docs.len() as int;
    assert(imports.take(n) =~= imports);
    lemma_rows_created(store, docs, imports, now, n);
    let midway = StoreView::empty().after_rows(imports, now);
    assert forall|j: int, k: int|
        0 <= j < imports.len() && 0 <= k < imports[j].links.len() implies importable(
        imports[j].uuid,
        #[trigger] imports[j].links[k],
    ) by {
        lemma_exported_link(store, docs, j, k);
    }
    lemma_all_links_imported(midway, imports, now, n);
    let first = StoreView::empty().imported(imports, now);
    assert(first == after_links(midway, imports, now));
    assert forall|j: int| 0 <= j < docs.len() implies first.store.row(
        (#[trigger] docs[j]).mnemonic,
    ).embedding == imports[j].embedding->0 by {
        assert(first.store.rows[j].mnemonic == docs[j].mnemonic);
        first.store.lemma_position(docs[j].mnemonic, j);
    }
}

/// After the import of exported documents into an empty store, every link
/// of the second store is a link of the first over again.
proof fn lemma_no_further_link(
    store: StoreView,
    docs: Seq<ExportedView>,
    imports: Seq<ImportedView>,
    now: i64,
)
    requires
        store.wf(),
        store.is_export(docs, None),
        made_from(imports, docs),
        docs.len() <= usize::MAX,
    ensures
        forall|i: int|
            0 <= i < StoreView::empty().imported(imports, now).store.edges.len()
                ==> is_link_again(
                store,
                StoreView::empty().imported(imports, now).store,
                #[trigger] StoreView::empty().imported(imports, now).store.edges[i],
            ),
{
    let n = docs.len() as int;
    assert(imports.take(n) =~= imports);
    lemma_rows_created(store, docs, imports, now, n);
    let midway = StoreView::empty().after_rows(imports, now);
    assert forall|j: int, k: int|
        0 <= j < imports.len() && 0 <= k < imports[j].links.len() implies importable(
        imports[j].uuid,
        #[trigger] imports[j].links[k],
    ) by {
        lemma_exported_link(store, docs, j, k);
    }
    lemma_all_links_imported(midway, imports, now, n);
    let first = StoreView::empty().imported(imports, now);
    assert(first == after_links(midway, imports, now));
    lemma_same_rows(midway.store, first.store);
    assert forall|i: int| 0 <= i < first.store.edges.len() implies is_link_again(
        store,
        first.store,
        #[trigger] first.store.edges[i],
    ) by {
        let e = first.store.edges[i];
        assert(from_documents(midway.store, imports, n, e));
        let (j, k) = choose|j: int, k: int|
            0 <= j < n && 0 <= k < imports[j].links.len() && link_of_document(
                midway.store,
                imports[j].uuid,
                #[trigger] imports[j].links[k],
                e,
            );
        lemma_link_comes_from(store, docs, first.store, j, k, e);
    }
}

/// The link that a link of an exported document becomes in a second store
/// is the link of the first store over again from which the document's link
/// was made.
proof fn lemma_link_comes_from(
    store: StoreView,
    docs: Seq<ExportedView>,
    second: StoreView,
    j: int,
    k: int,
    e: Edge,
)
    requires
        store.wf(),
        store.is_export(docs, None),
        0 <= j < docs.len(),
        0 <= k < docs[j].links.len(),
        link_of_document(second, docs[j].uuid, docs[j].links[k], e),
    ensures
        is_link_again(store, second, e),
{
    let r = store.row(docs[j].mnemonic);
    assert(docs[j] == store.exported(r));
    let out = store.edges.filter(leaves(r.id));
    lemma_filter_member(store.edges, leaves(r.id), k);
    let a = choose|a: int| 0 <= a < store.edges.len() && store.edges[a] == out[k];
    let link = store.edges[a];
    assert(docs[j].links[k] == store.exported_link(link));
    assert(store.edge_ok(link));
    store.lemma_position_of_id(link.source, store.position(docs[j].mnemonic));
    lemma_link_type_round_trip(link.kind);
    assert(same_link_again(store, second, store.edges[a], e));
}

/// Links that are there already change nothing when they are imported again.
proof fn lemma_links_present(
    store: StoreView,
    source: Seq<char>,
    links: Seq<ExportedLinkView>,
    now: i64,
)
    requires
        forall|k: int|
            0 <= k < links.len() ==> importable(source, #[trigger] links[k]) && (store.has_uuid(
                source,
            ) && store.has_uuid(links[k].target) ==> store.has_edge(
                store.row_of_uuid(source).id,
                store.row_of_uuid(links[k].target).id,
                LinkType::named(links[k].link_type)->0,
            )),
    ensures
        store.with_document_links(source, links, now) == (store, None::<StoreError>),
    decreases links.len(),
{
    if links.len() > 0 {
        let head = links.drop_last();
        assert forall|k: int| 0 <= k < head.len() implies importable(source, #[trigger] head[k])
            && (store.has_uuid(source) && store.has_uuid(head[k].target) ==> store.has_edge(
            store.row_of_uuid(source).id,
            store.row_of_uuid(head[k].target).id,
            LinkType::named(head[k].link_type)->0,
        )) by {
            assert(head[k] == links[k]);
        }
        lemma_links_present(store, source, head, now);
        assert(importable(source, links[links.len() - 1]));
    }
}

/// Documents whose links are there already change nothing when their links
/// are imported again.
proof fn lemma_all_links_present(state: ImportState, imports: Seq<ImportedView>, now: i64, n: int)
    requires
        0 <= n <= imports.len(),
        forall|j: int, k: int|
            0 <= j < imports.len() && 0 <= k < imports[j].links.len() ==> importable(
                imports[j].uuid,
                #[trigger] imports[j].links[k],
            ) && (state.store.has_uuid(imports[j].uuid) && state.store.has_uuid(
                imports[j].links[k].target,
            ) ==> state.store.has_edge(
                state.store.row_of_uuid(imports[j].uuid).id,
                state.store.row_of_uuid(imports[j].links[k].target).id,
                LinkType::named(imports[j].links[k].link_type)->0,
            )),
    ensures
        after_links(state, imports.take(n), now) == state,
    decreases n,
{
    if n == 0 {
        assert(imports.take(0) =~= Seq::empty());
    } else {
        lemma_all_links_present(state, imports, now, n - 1);
        let doc = imports[n - 1];
        assert(imports.take(n).drop_last() =~= imports.take(n - 1));
        assert(imports.take(n).last() == doc);
        assert forall|k: int| 0 <= k < doc.links.len() implies importable(
            doc.uuid,
            #[trigger] doc.links[k],
        ) && (state.store.has_uuid(doc.uuid) && state.store.has_uuid(doc.links[k].target)
            ==> state.store.has_edge(
            state.store.row_of_uuid(doc.uuid).id,
            state.store.row_of_uuid(doc.links[k].target).id,
            LinkType::named(doc.links[k].link_type)->0,
        )) by {
            assert(importable(imports[n - 1].uuid, imports[n - 1].links[k]));
        }
        lemma_links_present(state.store, doc.uuid, doc.links, now);
    }
}

/// A filter that every row passes changes nothing.
proof fn lemma_keep_all(rows: Seq<RowView>, keep: spec_fn(RowView) -> bool)
    requires
        forall|i: int| 0 <= i < rows.len() ==> keep(#[trigger] rows[i]),
    ensures
        rows.filter(keep) == rows,
    decreases rows.len(),
{
    reveal(Seq::filter);
    if rows.len() > 0 {
        let head = rows.drop_last();
        assert forall|i: int| 0 <= i < head.len() implies keep(#[trigger] head[i]) by {
            assert(head[i] == rows[i]);
        }
        lemma_keep_all(head, keep);
        assert(head.push(rows.last()) =~= rows);
    }
}

/// Every link of an exported document can be imported: its type is written
/// by a known name, and its target is another memory.
proof fn lemma_exported_link(store: StoreView, docs: Seq<ExportedView>, j: int, k: int)
    requires
        store.wf(),
        store.is_export(docs, None),
        0 <= j < docs.len(),
        0 <= k < docs[j].links.len(),
    ensures
        importable(docs[j].uuid, docs[j].links[k]),
{
    let r = store.row(docs[j].mnemonic);
    assert(docs[j] == store.exported(r));
    let out = store.edges.filter(leaves(r.id));
    lemma_filter_member(store.edges, leaves(r.id), k);
    let a = choose|a: int| 0 <= a < store.edges.len() && store.edges[a] == out[k];
    let e = store.edges[a];
    assert(docs[j].links[k] == store.exported_link(e));
    assert(store.edge_ok(e));
    lemma_link_type_round_trip(e.kind);
    let s = store.position(docs[j].mnemonic);
    let t = store.position_of_id(e.target);
    assert(store.rows[s].id == e.source);
    if s != t {
        law_mnemonics_are_unique(store, s, t);
    }
}

} // verus!
