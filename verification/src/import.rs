//! Import: documents come into the store by their external identifiers.

use vstd::prelude::*;
use crate::exchange::{ExportedLink, ExportedLinkView, exported_link_views};
use crate::model::{LinkType, MemoryRow, RowView, StoreError, EMBED_BYTES};
use crate::store::{MemoryStore, StoreView, copy_bytes};
use crate::tags::copy_tags;
use crate::text::texts;

verus! {

/// A document to import: what its front matter holds, its body, and the
/// embedding of its mnemonic, which is needed unless the store has the
/// document's body already.
#[derive(Debug)]
pub struct ImportedMemory {
    pub uuid: String,
    pub mnemonic: String,
    pub tags: Vec<String>,
    pub links: Vec<ExportedLink>,
    pub content: String,
    pub embedding: Option<Vec<u8>>,
}

/// The mathematical value of an `ImportedMemory`.
pub ghost struct ImportedView {
    pub uuid: Seq<char>,
    pub mnemonic: Seq<char>,
    pub tags: Seq<Seq<char>>,
    pub links: Seq<ExportedLinkView>,
    pub content: Seq<char>,
    pub embedding: Option<Seq<u8>>,
}

impl View for ImportedMemory {
    type V = ImportedView;

    open spec fn view(&self) -> ImportedView {
        ImportedView {
            uuid: self.uuid@,
            mnemonic: self.mnemonic@,
            tags: texts(self.tags@),
            links: exported_link_views(self.links@),
            content: self.content@,
            embedding: match self.embedding {
                Some(e) => Some(e@),
                None => None,
            },
        }
    }
}

/// The views of a sequence of documents to import, element by element.
pub open spec fn imported_views(docs: Seq<ImportedMemory>) -> Seq<ImportedView> {
    docs.map_values(|d: ImportedMemory| d@)
}

/// What the import of one document did.
#[derive(Clone, Copy, Debug, PartialEq, Eq, Structural)]
pub enum ImportKind {
    /// The store did not know the external identifier: a new memory.
    Created,
    /// The store knew it, with another body: the memory was rewritten.
    Updated,
    /// The store knew it, with this body: nothing was done.
    Unchanged,
}

/// How many documents an import created, updated, and found unchanged.
#[derive(Clone, Copy, Debug, PartialEq, Eq, Structural)]
pub struct ImportResult {
    pub created: usize,
    pub updated: usize,
    pub unchanged: usize,
}

/// A document that was not imported, by its place among the documents, or
/// whose links were not, and why.
#[derive(Clone, Copy, Debug, PartialEq, Eq, Structural)]
pub struct ImportFailure {
    pub index: usize,
    pub error: StoreError,
}

impl Default for ImportResult {
    fn default() -> (zero: ImportResult)
        ensures
            zero == (ImportResult { created: 0, updated: 0, unchanged: 0 }),
    {
        ImportResult { created: 0, updated: 0, unchanged: 0 }
    }
}

/// The counts after one more document of the given kind.
pub open spec fn counted(result: ImportResult, kind: ImportKind) -> ImportResult {
    match kind {
        ImportKind::Created => ImportResult { created: (result.created + 1) as usize, ..result },
        ImportKind::Updated => ImportResult { updated: (result.updated + 1) as usize, ..result },
        ImportKind::Unchanged => ImportResult {
            unchanged: (result.unchanged + 1) as usize,
            ..result
        },
    }
}

/// Where an import stands: the store, the counts, and the failures so far.
pub ghost struct ImportState {
    pub store: StoreView,
    pub result: ImportResult,
    pub failures: Seq<ImportFailure>,
}

impl StoreView {
    /// The row with the external identifier `uuid`.
    pub open spec fn row_of_uuid(self, uuid: Seq<char>) -> RowView {
        self.rows[self.position_of_uuid(uuid)]
    }

    /// What the import of one document does, or why it cannot be imported.
    pub open spec fn import_outcome(self, doc: ImportedView) -> Result<ImportKind, StoreError> {
        if self.has_uuid(doc.uuid) && self.row_of_uuid(doc.uuid).content == doc.content {
            Ok(ImportKind::Unchanged)
        } else if doc.embedding is None {
            Err(StoreError::EmbeddingRequired)
        } else if doc.embedding->0.len() != EMBED_BYTES {
            Err(StoreError::BadEmbedding)
        } else if self.has_uuid(doc.uuid) {
            if doc.mnemonic != self.row_of_uuid(doc.uuid).mnemonic && self.has_mnemonic(
                doc.mnemonic,
            ) {
                Err(StoreError::MnemonicTaken)
            } else {
                Ok(ImportKind::Updated)
            }
        } else if self.has_mnemonic(doc.mnemonic) {
            Err(StoreError::MnemonicTaken)
        } else if self.next_id == i64::MAX {
            Err(StoreError::Full)
        } else {
            Ok(ImportKind::Created)
        }
    }

    /// The store after one document is imported. A document that cannot be
    /// imported leaves the store as it is.
    pub open spec fn with_document(self, doc: ImportedView, now: i64) -> StoreView {
        match self.import_outcome(doc) {
            Ok(ImportKind::Created) => StoreView {
                rows: self.rows.push(
                    self.fresh_row(
                        doc.uuid,
                        doc.mnemonic,
                        doc.content,
                        doc.tags,
                        doc.embedding->0,
                        now,
                    ),
                ),
                next_id: (self.next_id + 1) as i64,
                ..self
            },
            Ok(ImportKind::Updated) => StoreView {
                rows: self.rows.update(
                    self.position_of_uuid(doc.uuid),
                    RowView {
                        mnemonic: doc.mnemonic,
                        content: doc.content,
                        tags: doc.tags,
                        embedding: doc.embedding->0,
                        updated_at: now,
                        ..self.row_of_uuid(doc.uuid)
                    },
                ),
                ..self
            },
            _ => self,
        }
    }

    /// The store after one link of the document `source` is imported, and
    /// what stood against it, if anything did. A link of which the store
    /// lacks an end is passed over.
    pub open spec fn with_document_link(self, source: Seq<char>, l: ExportedLinkView, now: i64) -> (
        StoreView,
        Option<StoreError>,
    ) {
        if !self.has_uuid(source) || !self.has_uuid(l.target) {
            (self, None)
        } else if LinkType::named(l.link_type) is None {
            (self, Some(StoreError::UnknownLinkType))
        } else if source == l.target {
            (self, Some(StoreError::SameMemory))
        } else {
            (
                self.with_edge(
                    self.row_of_uuid(source).id,
                    self.row_of_uuid(l.target).id,
                    LinkType::named(l.link_type)->0,
                    now,
                ),
                None,
            )
        }
    }

    /// The store after the links of the document `source` are imported in
    /// turn, up to the first that cannot be, and what stood against that one.
    pub open spec fn with_document_links(
        self,
        source: Seq<char>,
        links: Seq<ExportedLinkView>,
        now: i64,
    ) -> (StoreView, Option<StoreError>)
        decreases links.len(),
    {
        if links.len() == 0 {
            (self, None)
        } else {
            let before = self.with_document_links(source, links.drop_last(), now);
            if before.1 is Some {
                before
            } else {
                before.0.with_document_link(source, links.last(), now)
            }
        }
    }

    /// Where an import stands after the rows of `docs`: each document in
    /// turn is imported and counted, or listed with what stood against it.
    pub open spec fn after_rows(self, docs: Seq<ImportedView>, now: i64) -> ImportState
        decreases docs.len(),
    {
        if docs.len() == 0 {
            ImportState {
                store: self,
                result: ImportResult { created: 0, updated: 0, unchanged: 0 },
                failures: Seq::empty(),
            }
        } else {
            let before = self.after_rows(docs.drop_last(), now);
            match before.store.import_outcome(docs.last()) {
                Ok(kind) => ImportState {
                    store: before.store.with_document(docs.last(), now),
                    result: counted(before.result, kind),
                    failures: before.failures,
                },
                Err(e) => ImportState {
                    failures: before.failures.push(
                        ImportFailure { index: (docs.len() - 1) as usize, error: e },
                    ),
                    ..before
                },
            }
        }
    }

    /// The store after all of `docs` are imported: first the rows of all
    /// documents, then the links of all documents.
    pub open spec fn imported(self, docs: Seq<ImportedView>, now: i64) -> ImportState {
        after_links(self.after_rows(docs, now), docs, now)
    }

    /// Importing a document keeps the store well formed.
    pub proof fn lemma_with_document(self, doc: ImportedView, now: i64)
        requires
            self.wf(),
        ensures
            self.with_document(doc, now).wf(),
    {
        match self.import_outcome(doc) {
            Ok(ImportKind::Created) => {
                self.lemma_with_new_row(
                    self.fresh_row(
                        doc.uuid,
                        doc.mnemonic,
                        doc.content,
                        doc.tags,
                        doc.embedding->0,
                        now,
                    ),
                );
            },
            Ok(ImportKind::Updated) => {
                let i = self.position_of_uuid(doc.uuid);
                let r = RowView {
                    mnemonic: doc.mnemonic,
                    content: doc.content,
                    tags: doc.tags,
                    embedding: doc.embedding->0,
                    updated_at: now,
                    ..self.rows[i]
                };
                assert(self.row_ok(self.rows[i]));
                self.lemma_only_one(i);
                assert forall|j: int| 0 <= j < self.rows.len() && j != i implies (
                #[trigger] self.rows[j]).mnemonic != r.mnemonic by {
                    if self.rows[j].mnemonic == doc.mnemonic {
                        assert(self.has_mnemonic(doc.mnemonic));
                    }
                }
                self.lemma_with_row(i, r);
            },
            _ => {},
        }
    }

    /// Importing a link keeps the store well formed, and changes no row.
    pub proof fn lemma_with_document_link(self, source: Seq<char>, l: ExportedLinkView, now: i64)
        requires
            self.wf(),
        ensures
            self.with_document_link(source, l, now).0.wf(),
            self.with_document_link(source, l, now).0.rows == self.rows,
    {
        if self.has_uuid(source) && self.has_uuid(l.target) && LinkType::named(l.link_type)
            is Some && source != l.target {
            let s = self.position_of_uuid(source);
            let t = self.position_of_uuid(l.target);
            assert(self.rows[s].id != self.rows[t].id) by {
                if s < t {
                    assert(self.rows[s].id < self.rows[t].id);
                } else if t < s {
                    assert(self.rows[t].id < self.rows[s].id);
                }
            }
            self.lemma_with_edge(
                self.rows[s].id,
                self.rows[t].id,
                LinkType::named(l.link_type)->0,
                now,
            );
        }
    }

    /// Importing the links of a document keeps the store well formed, and
    /// changes no row.
    pub proof fn lemma_with_document_links(
        self,
        source: Seq<char>,
        links: Seq<ExportedLinkView>,
        now: i64,
    )
        requires
            self.wf(),
        ensures
            self.with_document_links(source, links, now).0.wf(),
            self.with_document_links(source, links, now).0.rows == self.rows,
        decreases links.len(),
    {
        if links.len() > 0 {
            self.lemma_with_document_links(source, links.drop_last(), now);
            let before = self.with_document_links(source, links.drop_last(), now);
            if before.1 is None {
                before.0.lemma_with_document_link(source, links.last(), now);
            }
        }
    }
}

/// Where an import stands after the links of `docs`: for each document in
/// turn its links are imported, and a document with a link that cannot be
/// is listed with what stood against it.
pub open spec fn after_links(state: ImportState, docs: Seq<ImportedView>, now: i64) -> ImportState
    decreases docs.len(),
{
    if docs.len() == 0 {
        state
    } else {
        let before = after_links(state, docs.drop_last(), now);
        let linked = before.store.with_document_links(docs.last().uuid, docs.last().links, now);
        ImportState {
            store: linked.0,
            failures: match linked.1 {
                Some(e) => before.failures.push(
                    ImportFailure { index: (docs.len() - 1) as usize, error: e },
                ),
                None => before.failures,
            },
            ..before
        }
    }
}

/// What stood against an answer, if anything did.
pub open spec fn obstacle_of(done: Result<(), StoreError>) -> Option<StoreError> {
    match done {
        Ok(()) => None,
        Err(e) => Some(e),
    }
}

impl MemoryStore {
    /// Imports one document. A document whose external identifier the store
    /// knows is compared by its body: the same body leaves the memory as it
    /// is, another body rewrites mnemonic, content, tags and embedding. A
    /// document whose external identifier the store does not know becomes a
    /// new memory under that identifier.
    pub fn import_memory(&mut self, doc: &ImportedMemory, now: i64) -> (done: Result<
        ImportKind,
        StoreError,
    >)
        requires
            old(self).wf(),
        ensures
            final(self).wf(),
            done == old(self)@.import_outcome(doc@),
            final(self)@ == old(self)@.with_document(doc@, now),
    {
        let ghost before = self@;
        proof {
            before.lemma_with_document(doc@, now);
        }
        let known = self.find_uuid(&doc.uuid);
        match known {
            Some(i) => {
                assert(before.rows[i as int].content == self.rows@[i as int].content@);
                if self.rows[i].content == doc.content {
                    return Ok(ImportKind::Unchanged);
                }
            },
            None => {},
        }
        let embedding = match &doc.embedding {
            Some(e) => e,
            None => {
                return Err(StoreError::EmbeddingRequired);
            },
        };
        if embedding.len() != EMBED_BYTES {
            return Err(StoreError::BadEmbedding);
        }
        let taken = self.find(&doc.mnemonic);
        match known {
            Some(i) => {
                match taken {
                    Some(j) => {
                        if j != i {
                            proof {
                                before.lemma_only_one(i as int);
                            }
                            return Err(StoreError::MnemonicTaken);
                        }
                    },
                    None => {},
                }
                self.rows[i].mnemonic = doc.mnemonic.clone();
                self.rows[i].content = doc.content.clone();
                self.rows[i].tags = copy_tags(&doc.tags);
                self.rows[i].embedding = copy_bytes(embedding);
                self.rows[i].updated_at = now;
                assert(self@.rows =~= before.with_document(doc@, now).rows);
                Ok(ImportKind::Updated)
            },
            None => {
                if taken.is_some() {
                    return Err(StoreError::MnemonicTaken);
                }
                if self.next_id == i64::MAX {
                    return Err(StoreError::Full);
                }
                let id: i64 = self.next_id;
                let row = MemoryRow {
                    id,
                    uuid: doc.uuid.clone(),
                    mnemonic: doc.mnemonic.clone(),
                    content: doc.content.clone(),
                    tags: copy_tags(&doc.tags),
                    embedding: copy_bytes(embedding),
                    created_at: now,
                    updated_at: now,
                    recall_count: 0,
                    last_recalled_at: None,
                    useful_count: 0,
                    not_useful_count: 0,
                };
                self.rows.push(row);
                self.next_id = id + 1;
                assert(self@.rows =~= before.with_document(doc@, now).rows);
                Ok(ImportKind::Created)
            },
        }
    }

    /// Whether the store has a memory with the external identifier `uuid`
    /// and the body `content`: a document that would be imported unchanged,
    /// for which no embedding is needed.
    pub fn knows_document(&self, uuid: &str, content: &str) -> (known: bool)
        requires
            self.wf(),
        ensures
            known == (self@.has_uuid(uuid@) && self@.row_of_uuid(uuid@).content == content@),
    {
        match self.find_uuid(&uuid.to_owned()) {
            Some(i) => {
                assert(self@.rows[i as int].content == self.rows@[i as int].content@);
                self.rows[i].content == content.to_owned()
            },
            None => false,
        }
    }

    /// Imports the links of one document, in turn, up to the first that
    /// cannot be imported. A link of which the store lacks an end is passed
    /// over; a link that is there already stays as it is.
    pub fn import_links(&mut self, doc: &ImportedMemory, now: i64) -> (done: Result<(), StoreError>)
        requires
            old(self).wf(),
        ensures
            final(self).wf(),
            (final(self)@, obstacle_of(done)) == old(self)@.with_document_links(
                doc@.uuid,
                doc@.links,
                now,
            ),
    {
        let ghost before = self@;
        let ghost links = doc@.links;
        let mut i: usize = 0;
        assert(links.take(0) =~= Seq::empty());
        while i < doc.links.len()
            invariant
                i <= doc.links.len(),
                self.wf(),
                before.wf(),
                before == old(self)@,
                links == doc@.links,
                links.len() == doc.links.len(),
                (self@, None::<StoreError>) == before.with_document_links(
                    doc@.uuid,
                    links.take(i as int),
                    now,
                ),
            decreases doc.links.len() - i,
        {
            let l = &doc.links[i];
            let ghost here = self@;
            proof {
                assert(links.take(i + 1).drop_last() =~= links.take(i as int));
                assert(links.take(i + 1).last() == l@);
                here.lemma_with_document_link(doc@.uuid, l@, now);
                assert(before.with_document_links(doc@.uuid, links.take(i + 1), now)
                    == here.with_document_link(doc@.uuid, l@, now));
            }
            let s = self.find_uuid(&doc.uuid);
            let t = self.find_uuid(&l.target);
            match (s, t) {
                (Some(s), Some(t)) => {
                    let kind = match LinkType::parse(l.link_type.as_str()) {
                        Some(kind) => kind,
                        None => {
                            proof {
                                lemma_stops(before, doc@.uuid, links, i + 1, now);
                            }
                            return Err(StoreError::UnknownLinkType);
                        },
                    };
                    if s == t {
                        proof {
                            lemma_stops(before, doc@.uuid, links, i + 1, now);
                        }
                        return Err(StoreError::SameMemory);
                    }
                    proof {
                        if doc@.uuid == l@.target {
                            assert(false);
                        }
                    }
                    let sid: i64 = self.rows[s].id;
                    let tid: i64 = self.rows[t].id;
                    assert(here.rows[s as int].id == sid && here.rows[t as int].id == tid);
                    self.add_link(sid, tid, kind, now);
                },
                _ => {},
            }
            i += 1;
        }
        assert(links.take(doc.links.len() as int) =~= links);
        Ok(())
    }

    /// Imports documents, in their order: first the rows of all of them,
    /// then the links of all of them. A document that cannot be imported, or
    /// a link of which cannot be, is listed with the reason, and the import
    /// goes on with the next document.
    pub fn import(&mut self, docs: &Vec<ImportedMemory>, now: i64) -> (done: (
        ImportResult,
        Vec<ImportFailure>,
    ))
        requires
            old(self).wf(),
        ensures
            final(self).wf(),
            (ImportState { store: final(self)@, result: done.0, failures: done.1@ }) == old(
                self,
            )@.imported(imported_views(docs@), now),
    {
        let ghost before = self@;
        let ghost all = imported_views(docs@);
        let mut result = ImportResult { created: 0, updated: 0, unchanged: 0 };
        let mut failures: Vec<ImportFailure> = Vec::new();
        let mut i: usize = 0;
        assert(all.take(0) =~= Seq::empty());
        while i < docs.len()
            invariant
                i <= docs.len(),
                self.wf(),
                all == imported_views(docs@),
                result.created + result.updated + result.unchanged <= i,
                (ImportState { store: self@, result, failures: failures@ }) == before.after_rows(
                    all.take(i as int),
                    now,
                ),
            decreases docs.len() - i,
        {
            proof {
                assert(all.take(i + 1).drop_last() =~= all.take(i as int));
                assert(all.take(i + 1).last() == docs@[i as int]@);
            }
            match self.import_memory(&docs[i], now) {
                Ok(ImportKind::Created) => {
                    result.created = result.created + 1;
                },
                Ok(ImportKind::Updated) => {
                    result.updated = result.updated + 1;
                },
                Ok(ImportKind::Unchanged) => {
                    result.unchanged = result.unchanged + 1;
                },
                Err(e) => {
                    failures.push(ImportFailure { index: i, error: e });
                },
            }
            i += 1;
        }
        assert(all.take(docs.len() as int) =~= all);
        let ghost midway = ImportState { store: self@, result, failures: failures@ };
        let mut j: usize = 0;
        while j < docs.len()
            invariant
                j <= docs.len(),
                self.wf(),
                all == imported_views(docs@),
                (ImportState { store: self@, result, failures: failures@ }) == after_links(
                    midway,
                    all.take(j as int),
                    now,
                ),
            decreases docs.len() - j,
        {
            proof {
                assert(all.take(j + 1).drop_last() =~= all.take(j as int));
                assert(all.take(j + 1).last() == docs@[j as int]@);
            }
            match self.import_links(&docs[j], now) {
                Ok(()) => {},
                Err(e) => {
                    failures.push(ImportFailure { index: j, error: e });
                },
            }
            j += 1;
        }
        assert(all.take(docs.len() as int) =~= all);
        (result, failures)
    }
}

/// Once a link cannot be imported, the links after it change nothing.
proof fn lemma_stops(
    store: StoreView,
    source: Seq<char>,
    links: Seq<ExportedLinkView>,
    n: int,
    now: i64,
)
    requires
        0 < n <= links.len(),
        store.with_document_links(source, links.take(n), now).1 is Some,
    ensures
        store.with_document_links(source, links, now) == store.with_document_links(
            source,
            links.take(n),
            now,
        ),
    decreases links.len() - n,
{
    if n < links.len() {
        assert(links.drop_last().take(n) =~= links.take(n));
        lemma_stops(store, source, links.drop_last(), n, now);
    } else {
        assert(links.take(n) =~= links);
    }
}

} // verus!
