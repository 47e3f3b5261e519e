//! Writing a memory: the row and its embedding.

use vstd::prelude::*;
use crate::model::{MemoryRow, RowView, StoreError, EMBED_BYTES};
use crate::store::{MemoryStore, StoreView, copy_bytes};
use crate::tags::copy_tags;
use crate::text::texts;

verus! {

/// A row after it is written again: content, tags and embedding are the new
/// ones, the time of the last change is `now`, and all else stays: the
/// identifiers, the time of creation and the counters.
pub open spec fn rewritten(
    r: RowView,
    content: Seq<char>,
    tags: Seq<Seq<char>>,
    embedding: Seq<u8>,
    now: i64,
) -> RowView {
    RowView { content, tags, embedding, updated_at: now, ..r }
}

impl StoreView {
    /// The row that a new memory starts as.
    pub open spec fn fresh_row(
        self,
        uuid: Seq<char>,
        mnemonic: Seq<char>,
        content: Seq<char>,
        tags: Seq<Seq<char>>,
        embedding: Seq<u8>,
        now: i64,
    ) -> RowView {
        RowView {
            id: self.next_id,
            uuid,
            mnemonic,
            content,
            tags,
            embedding,
            created_at: now,
            updated_at: now,
            recall_count: 0,
            last_recalled_at: None,
            useful_count: 0,
            not_useful_count: 0,
        }
    }

    /// What a write answers: the identifier of the row written, or why
    /// nothing was written. A known mnemonic is written over, and then `uuid`
    /// plays no part.
    pub open spec fn upsert_outcome(
        self,
        mnemonic: Seq<char>,
        embedding: Seq<u8>,
        uuid: Seq<char>,
    ) -> Result<i64, StoreError> {
        if embedding.len() != EMBED_BYTES {
            Err(StoreError::BadEmbedding)
        } else if self.has_mnemonic(mnemonic) {
            Ok(self.id_of(mnemonic))
        } else if self.has_uuid(uuid) {
            Err(StoreError::UuidTaken)
        } else if self.next_id == i64::MAX {
            Err(StoreError::Full)
        } else {
            Ok(self.next_id)
        }
    }

    /// The store after a write that took place.
    pub open spec fn upserted(
        self,
        mnemonic: Seq<char>,
        content: Seq<char>,
        tags: Seq<Seq<char>>,
        embedding: Seq<u8>,
        uuid: Seq<char>,
        now: i64,
    ) -> StoreView {
        if self.has_mnemonic(mnemonic) {
            StoreView {
                rows: self.rows.update(
                    self.position(mnemonic),
                    rewritten(self.row(mnemonic), content, tags, embedding, now),
                ),
                ..self
            }
        } else {
            StoreView {
                rows: self.rows.push(
                    self.fresh_row(uuid, mnemonic, content, tags, embedding, now),
                ),
                next_id: (self.next_id + 1) as i64,
                ..self
            }
        }
    }

    /// A store stays well formed when one row is replaced by a row with the
    /// same identifiers and a mnemonic that no other row has.
    pub proof fn lemma_with_row(self, i: int, r: RowView)
        requires
            self.wf(),
            0 <= i < self.rows.len(),
            r.id == self.rows[i].id,
            r.uuid == self.rows[i].uuid,
            self.row_ok(r),
            forall|j: int|
                0 <= j < self.rows.len() && j != i ==> (#[trigger] self.rows[j]).mnemonic
                    != r.mnemonic,
        ensures
            (StoreView { rows: self.rows.update(i, r), ..self }).wf(),
            forall|id: i64|
                (StoreView { rows: self.rows.update(i, r), ..self }).has_id(id) <==> self.has_id(
                    id,
                ),
    {
        let after = StoreView { rows: self.rows.update(i, r), ..self };
        assert forall|id: i64| after.has_id(id) <==> self.has_id(id) by {
            if self.has_id(id) {
                let j = self.position_of_id(id);
                assert(after.rows[j].id == id);
            }
            if after.has_id(id) {
                let j = after.position_of_id(id);
                assert(self.rows[j].id == id);
            }
        }
        assert forall|j: int| 0 <= j < after.rows.len() implies after.row_ok(
            #[trigger] after.rows[j],
        ) by {
            assert(self.row_ok(self.rows[j]));
        }
        assert forall|a: int, b: int| 0 <= a < b < after.rows.len() implies {
            &&& (#[trigger] after.rows[a]).id < (#[trigger] after.rows[b]).id
            &&& after.rows[a].mnemonic != after.rows[b].mnemonic
            &&& after.rows[a].uuid != after.rows[b].uuid
        } by {
            assert(self.rows[a].id < self.rows[b].id);
            assert(self.rows[a].uuid != self.rows[b].uuid);
            assert(self.rows[a].mnemonic != self.rows[b].mnemonic);
        }
        assert forall|j: int| 0 <= j < after.edges.len() implies after.edge_ok(
            #[trigger] after.edges[j],
        ) by {
            assert(self.edge_ok(self.edges[j]));
        }
    }

    /// A store stays well formed when a new row comes last, under a mnemonic
    /// and an external identifier that no row has yet.
    pub proof fn lemma_with_new_row(self, r: RowView)
        requires
            self.wf(),
            self.next_id < i64::MAX,
            r.id == self.next_id,
            r.embedding.len() == EMBED_BYTES,
            0 <= r.recall_count,
            0 <= r.useful_count,
            0 <= r.not_useful_count,
            !self.has_mnemonic(r.mnemonic),
            !self.has_uuid(r.uuid),
        ensures
            (StoreView { rows: self.rows.push(r), next_id: (self.next_id + 1) as i64, ..self }).wf(),
    {
        let after = StoreView {
            rows: self.rows.push(r),
            next_id: (self.next_id + 1) as i64,
            ..self
        };
        assert forall|j: int| 0 <= j < after.rows.len() implies after.row_ok(
            #[trigger] after.rows[j],
        ) by {
            if j < self.rows.len() {
                assert(self.row_ok(self.rows[j]));
            }
        }
        assert forall|a: int, b: int| 0 <= a < b < after.rows.len() implies {
            &&& (#[trigger] after.rows[a]).id < (#[trigger] after.rows[b]).id
            &&& after.rows[a].mnemonic != after.rows[b].mnemonic
            &&& after.rows[a].uuid != after.rows[b].uuid
        } by {
            assert(self.row_ok(self.rows[a]));
            if b < self.rows.len() {
                assert(self.rows[a].id < self.rows[b].id);
            }
        }
        assert forall|j: int| 0 <= j < after.edges.len() implies after.edge_ok(
            #[trigger] after.edges[j],
        ) by {
            let e = self.edges[j];
            assert(self.edge_ok(e));
            let s = self.position_of_id(e.source);
            let t = self.position_of_id(e.target);
            assert(after.rows[s].id == e.source);
            assert(after.rows[t].id == e.target);
        }
    }
}

/// `uuid::Uuid::new_v4`, written out by `to_string`: a random identifier.
/// Nothing is claimed of it: two calls may give any two strings.
#[verifier::external_body]
pub(crate) fn fresh_uuid() -> String {
    uuid::Uuid::new_v4().to_string()
}

impl MemoryStore {
    /// Writes a memory: a known mnemonic gets the new content, tags and
    /// embedding and keeps its identifiers and counters; an unknown one
    /// becomes a new row, with `uuid` as its external identifier. Returns the
    /// identifier of the row.
    pub fn upsert_with_uuid(
        &mut self,
        uuid: String,
        mnemonic: &str,
        content: &str,
        tags: &Vec<String>,
        embedding: &Vec<u8>,
        now: i64,
    ) -> (done: Result<i64, StoreError>)
        requires
            old(self).wf(),
        ensures
            final(self).wf(),
            done == old(self)@.upsert_outcome(mnemonic@, embedding@, uuid@),
            done is Ok ==> final(self)@ == old(self)@.upserted(
                mnemonic@,
                content@,
                texts(tags@),
                embedding@,
                uuid@,
                now,
            ),
            done is Err ==> final(self)@ == old(self)@,
            done is Ok ==> final(self)@.has_id(done->Ok_0),
    {
        if embedding.len() != EMBED_BYTES {
            return Err(StoreError::BadEmbedding);
        }
        let key = mnemonic.to_owned();
        match self.find(&key) {
            Some(i) => {
                let id: i64 = self.rows[i].id;
                let ghost before = self@;
                let ghost row = rewritten(
                    before.rows[i as int],
                    content@,
                    texts(tags@),
                    embedding@,
                    now,
                );
                proof {
                    assert(before.row_ok(before.rows[i as int]));
                    assert forall|j: int|
                        0 <= j < before.rows.len() && j != i implies (
                    #[trigger] before.rows[j]).mnemonic != row.mnemonic by {
                        if j < i {
                            assert(before.rows[j].mnemonic != before.rows[i as int].mnemonic);
                        } else {
                            assert(before.rows[i as int].mnemonic != before.rows[j].mnemonic);
                        }
                    }
                    before.lemma_with_row(i as int, row);
                }
                self.rows[i].content = content.to_owned();
                self.rows[i].tags = copy_tags(tags);
                self.rows[i].embedding = copy_bytes(embedding);
                self.rows[i].updated_at = now;
                assert(self@.rows =~= before.rows.update(i as int, row));
                assert(self@.rows[i as int].id == id);
                Ok(id)
            },
            None => {
                if self.find_uuid(&uuid).is_some() {
                    return Err(StoreError::UuidTaken);
                }
                if self.next_id == i64::MAX {
                    return Err(StoreError::Full);
                }
                let id: i64 = self.next_id;
                let ghost before = self@;
                let row = MemoryRow {
                    id,
                    uuid,
                    mnemonic: key,
                    content: content.to_owned(),
                    tags: copy_tags(tags),
                    embedding: copy_bytes(embedding),
                    created_at: now,
                    updated_at: now,
                    recall_count: 0,
                    last_recalled_at: None,
                    useful_count: 0,
                    not_useful_count: 0,
                };
                proof {
                    before.lemma_with_new_row(row@);
                }
                self.rows.push(row);
                self.next_id = id + 1;
                assert(self@.rows =~= before.rows.push(row@));
                assert(self@.rows[before.rows.len() as int].id == id);
                Ok(id)
            },
        }
    }

    /// Writes a memory as `upsert_with_uuid` does, with a random external
    /// identifier for a new row.
    pub fn upsert(
        &mut self,
        mnemonic: &str,
        content: &str,
        tags: &Vec<String>,
        embedding: &Vec<u8>,
        now: i64,
    ) -> (done: Result<i64, StoreError>)
        requires
            old(self).wf(),
        ensures
            final(self).wf(),
            exists|uuid: Seq<char>|
                {
                    &&& done == #[trigger] old(self)@.upsert_outcome(mnemonic@, embedding@, uuid)
                    &&& done is Ok ==> final(self)@ == old(self)@.upserted(
                        mnemonic@,
                        content@,
                        texts(tags@),
                        embedding@,
                        uuid,
                        now,
                    )
                },
            done is Err ==> final(self)@ == old(self)@,
            done is Ok ==> final(self)@.has_id(done->Ok_0),
            old(self)@.has_mnemonic(mnemonic@) && embedding@.len() == EMBED_BYTES ==> done is Ok,
    {
        let uuid = fresh_uuid();
        let ghost chosen = uuid@;
        let done = self.upsert_with_uuid(uuid, mnemonic, content, tags, embedding, now);
        assert(done == old(self)@.upsert_outcome(mnemonic@, embedding@, chosen));
        done
    }
}

} // verus!
