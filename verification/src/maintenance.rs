//! Keeping memories: rating, rewriting, renaming, editing and deleting them.

use vstd::prelude::*;
use crate::model::{Edge, EditResult, EditView, RowView, StoreError, EMBED_BYTES};
use crate::links::{lemma_filter_member, lemma_filter_order};
use crate::merge::distinct_triples;
use crate::store::{MemoryStore, StoreView, apart_from, bumped, copy_bytes, same_triple};
use crate::tags::{absent_from, copy_tags, edit_tags, edited_tags, has_tag, rename_in_tags, renamed_tags};
use crate::text::texts;
use crate::write::rewritten;

verus! {

/// A row after one more rating.
pub open spec fn rated_row(r: RowView, useful: bool) -> RowView {
    if useful {
        RowView { useful_count: bumped(r.useful_count), ..r }
    } else {
        RowView { not_useful_count: bumped(r.not_useful_count), ..r }
    }
}

/// A row after an edit: the tags are the edited ones, the mnemonic and the
/// embedding are the new ones where the edit renames, and the time of the
/// last change is `now`.
pub open spec fn edited_row(
    r: RowView,
    new_mnemonic: Option<Seq<char>>,
    add: Seq<Seq<char>>,
    remove: Seq<Seq<char>>,
    new_embedding: Option<Seq<u8>>,
    now: i64,
) -> RowView {
    RowView {
        tags: edited_tags(r.tags, add, remove),
        updated_at: now,
        mnemonic: if new_mnemonic is Some {
            new_mnemonic->0
        } else {
            r.mnemonic
        },
        embedding: if new_mnemonic is Some && new_embedding is Some {
            new_embedding->0
        } else {
            r.embedding
        },
        ..r
    }
}

/// The function that renames the tag `old` to `new` in a row that has it,
/// at `now`, and leaves other rows as they are.
pub open spec fn tag_renamer(old: Seq<char>, new: Seq<char>, now: i64) -> spec_fn(RowView) -> RowView {
    |r: RowView|
        if r.tags.contains(old) {
            RowView { tags: renamed_tags(r.tags, old, new), updated_at: now, ..r }
        } else {
            r
        }
}

/// The predicate "has the tag `tag`".
pub open spec fn tagged_with(tag: Seq<char>) -> spec_fn(RowView) -> bool {
    |r: RowView| r.tags.contains(tag)
}

/// The text of an optional string.
pub open spec fn opt_text(s: Option<&str>) -> Option<Seq<char>> {
    match s {
        Some(s) => Some(s@),
        None => None,
    }
}

/// The bytes of an optional embedding.
pub open spec fn opt_bytes(b: Option<&Vec<u8>>) -> Option<Seq<u8>> {
    match b {
        Some(b) => Some(b@),
        None => None,
    }
}

impl StoreView {
    /// A store stays well formed when its rows change in what they hold but
    /// not in their identifiers, mnemonics or number.
    pub proof fn lemma_same_keys(self, rows: Seq<RowView>)
        requires
            self.wf(),
            rows.len() == self.rows.len(),
            forall|j: int|
                0 <= j < rows.len() ==> {
                    &&& (#[trigger] rows[j]).id == self.rows[j].id
                    &&& rows[j].mnemonic == self.rows[j].mnemonic
                    &&& rows[j].uuid == self.rows[j].uuid
                    &&& self.row_ok(rows[j])
                },
        ensures
            (StoreView { rows, ..self }).wf(),
    {
        let after = StoreView { rows, ..self };
        assert forall|a: int, b: int| 0 <= a < b < after.rows.len() implies {
            &&& (#[trigger] after.rows[a]).id < (#[trigger] after.rows[b]).id
            &&& after.rows[a].mnemonic != after.rows[b].mnemonic
            &&& after.rows[a].uuid != after.rows[b].uuid
        } by {
            assert(self.rows[a].id < self.rows[b].id);
            assert(self.rows[a].mnemonic != self.rows[b].mnemonic);
            assert(self.rows[a].uuid != self.rows[b].uuid);
        }
        assert forall|j: int| 0 <= j < after.edges.len() implies after.edge_ok(
            #[trigger] after.edges[j],
        ) by {
            let e = self.edges[j];
            assert(self.edge_ok(e));
            let s = self.position_of_id(e.source);
            let t = self.position_of_id(e.target);
            assert(after.rows[s].id == e.source);
            assert(after.rows[t].id == e.target);
        }
    }

    /// No other row of a well-formed store has the mnemonic of the row at `i`.
    pub proof fn lemma_only_one(self, i: int)
        requires
            self.wf(),
            0 <= i < self.rows.len(),
        ensures
            forall|j: int|
                0 <= j < self.rows.len() && j != i ==> (#[trigger] self.rows[j]).mnemonic
                    != self.rows[i].mnemonic,
    {
        assert forall|j: int| 0 <= j < self.rows.len() && j != i implies (
        #[trigger] self.rows[j]).mnemonic != self.rows[i].mnemonic by {
            if j < i {
                assert(self.rows[j].mnemonic != self.rows[i].mnemonic);
            } else {
                assert(self.rows[i].mnemonic != self.rows[j].mnemonic);
            }
        }
    }

    /// The store after the memory `m` is rated.
    pub open spec fn rated(self, m: Seq<char>, useful: bool) -> StoreView {
        StoreView {
            rows: self.rows.update(self.position(m), rated_row(self.row(m), useful)),
            ..self
        }
    }

    /// The store after each of `names` that it holds is rated, in turn.
    pub open spec fn rated_each(self, names: Seq<Seq<char>>, useful: bool) -> StoreView
        decreases names.len(),
    {
        if names.len() == 0 {
            self
        } else {
            let before = self.rated_each(names.drop_last(), useful);
            if before.has_mnemonic(names.last()) {
                before.rated(names.last(), useful)
            } else {
                before
            }
        }
    }

    /// The predicate "is a mnemonic that the store does not hold".
    pub open spec fn unknown(self) -> spec_fn(Seq<char>) -> bool {
        |m: Seq<char>| !self.has_mnemonic(m)
    }

    /// The store without the memory `m`, and without the links that touched it.
    pub open spec fn deleted(self, m: Seq<char>) -> StoreView {
        StoreView {
            rows: self.rows.remove(self.position(m)),
            edges: self.edges.filter(apart_from(self.id_of(m))),
            ..self
        }
    }

    /// What `update_memory` answers.
    pub open spec fn update_outcome(self, m: Seq<char>, embedding: Seq<u8>) -> Result<
        (),
        StoreError,
    > {
        if !self.has_mnemonic(m) {
            Err(StoreError::NotFound)
        } else if embedding.len() != EMBED_BYTES {
            Err(StoreError::BadEmbedding)
        } else {
            Ok(())
        }
    }

    /// The store after the memory `m` is written again.
    pub open spec fn updated(
        self,
        m: Seq<char>,
        content: Seq<char>,
        tags: Seq<Seq<char>>,
        embedding: Seq<u8>,
        now: i64,
    ) -> StoreView {
        StoreView {
            rows: self.rows.update(
                self.position(m),
                rewritten(self.row(m), content, tags, embedding, now),
            ),
            ..self
        }
    }

    /// What `rename_memory` answers. A mnemonic is taken where a row other
    /// than the renamed one has it.
    pub open spec fn rename_outcome(
        self,
        old: Seq<char>,
        new: Seq<char>,
        embedding: Seq<u8>,
    ) -> Result<(), StoreError> {
        if !self.has_mnemonic(old) {
            Err(StoreError::NotFound)
        } else if new != old && self.has_mnemonic(new) {
            Err(StoreError::MnemonicTaken)
        } else if embedding.len() != EMBED_BYTES {
            Err(StoreError::BadEmbedding)
        } else {
            Ok(())
        }
    }

    /// The store after the memory `old` is renamed to `new`.
    pub open spec fn renamed(
        self,
        old: Seq<char>,
        new: Seq<char>,
        embedding: Seq<u8>,
        now: i64,
    ) -> StoreView {
        StoreView {
            rows: self.rows.update(
                self.position(old),
                RowView { mnemonic: new, embedding, updated_at: now, ..self.row(old) },
            ),
            ..self
        }
    }

    /// What stands against an edit, if anything does.
    pub open spec fn edit_obstacle(
        self,
        m: Seq<char>,
        new_mnemonic: Option<Seq<char>>,
        add: Seq<Seq<char>>,
        remove: Seq<Seq<char>>,
        new_embedding: Option<Seq<u8>>,
    ) -> Option<StoreError> {
        if new_mnemonic is None && add.len() == 0 && remove.len() == 0 {
            Some(StoreError::EmptyEdit)
        } else if !self.has_mnemonic(m) {
            Some(StoreError::NotFound)
        } else if new_mnemonic is None {
            None
        } else if new_embedding is None {
            Some(StoreError::EmbeddingRequired)
        } else if new_mnemonic->0 != m && self.has_mnemonic(new_mnemonic->0) {
            Some(StoreError::MnemonicTaken)
        } else if new_embedding->0.len() != EMBED_BYTES {
            Some(StoreError::BadEmbedding)
        } else {
            None
        }
    }

    /// The store after the memory `m` is edited.
    pub open spec fn edited(
        self,
        m: Seq<char>,
        new_mnemonic: Option<Seq<char>>,
        add: Seq<Seq<char>>,
        remove: Seq<Seq<char>>,
        new_embedding: Option<Seq<u8>>,
        now: i64,
    ) -> StoreView {
        StoreView {
            rows: self.rows.update(
                self.position(m),
                edited_row(self.row(m), new_mnemonic, add, remove, new_embedding, now),
            ),
            ..self
        }
    }

    /// What an edit of the memory `m` reports.
    pub open spec fn edit_report(
        self,
        m: Seq<char>,
        new_mnemonic: Option<Seq<char>>,
        add: Seq<Seq<char>>,
        remove: Seq<Seq<char>>,
    ) -> EditView {
        EditView {
            old_mnemonic: m,
            new_mnemonic: if new_mnemonic is Some {
                new_mnemonic->0
            } else {
                m
            },
            tags: edited_tags(self.row(m).tags, add, remove),
            re_embedded: new_mnemonic is Some,
        }
    }

    /// The store after the tag `old` is renamed to `new` in every memory
    /// that has it.
    pub open spec fn tag_renamed(self, old: Seq<char>, new: Seq<char>, now: i64) -> StoreView {
        StoreView { rows: self.rows.map_values(tag_renamer(old, new, now)), ..self }
    }

    /// Deleting a memory keeps the store well formed.
    pub proof fn lemma_deleted(self, m: Seq<char>)
        requires
            self.wf(),
            self.has_mnemonic(m),
        ensures
            self.deleted(m).wf(),
            !self.deleted(m).has_mnemonic(m),
            !self.deleted(m).has_id(self.id_of(m)),
    {
        let after = self.deleted(m);
        let g = self.position(m);
        let gone = self.rows[g].id;
        assert(distinct_triples(after.edges)) by {
            assert forall|i: int, j: int| 0 <= i < j < after.edges.len() implies !same_triple(
                #[trigger] after.edges[i],
                #[trigger] after.edges[j],
            ) by {
                lemma_filter_order(self.edges, apart_from(gone), i, j);
            }
        }
        assert forall|j: int| 0 <= j < after.rows.len() implies after.row_ok(
            #[trigger] after.rows[j],
        ) by {
            let o = if j < g {
                j
            } else {
                j + 1
            };
            assert(self.row_ok(self.rows[o]));
        }
        assert forall|a: int, b: int| 0 <= a < b < after.rows.len() implies {
            &&& (#[trigger] after.rows[a]).id < (#[trigger] after.rows[b]).id
            &&& after.rows[a].mnemonic != after.rows[b].mnemonic
            &&& after.rows[a].uuid != after.rows[b].uuid
        } by {
            let oa = if a < g {
                a
            } else {
                a + 1
            };
            let ob = if b < g {
                b
            } else {
                b + 1
            };
            assert(self.rows[oa].id < self.rows[ob].id);
            assert(self.rows[oa].mnemonic != self.rows[ob].mnemonic);
            assert(self.rows[oa].uuid != self.rows[ob].uuid);
        }
        assert forall|j: int| 0 <= j < after.rows.len() implies (#[trigger] after.rows[j]).id
            != gone && after.rows[j].mnemonic != m by {
            let o = if j < g {
                j
            } else {
                j + 1
            };
            if o < g {
                assert(self.rows[o].id < self.rows[g].id);
                assert(self.rows[o].mnemonic != self.rows[g].mnemonic);
            } else {
                assert(self.rows[g].id < self.rows[o].id);
                assert(self.rows[g].mnemonic != self.rows[o].mnemonic);
            }
        }
        assert forall|i: int| 0 <= i < after.edges.len() implies after.edge_ok(
            #[trigger] after.edges[i],
        ) by {
            lemma_filter_member(self.edges, apart_from(gone), i);
            let a = choose|a: int| 0 <= a < self.edges.len() && self.edges[a] == after.edges[i];
            let e = self.edges[a];
            assert(self.edge_ok(e));
            let s = self.position_of_id(e.source);
            let t = self.position_of_id(e.target);
            assert(s != g && t != g);
            let s2 = if s < g {
                s
            } else {
                s - 1
            };
            let t2 = if t < g {
                t
            } else {
                t - 1
            };
            assert(after.rows[s2].id == e.source);
            assert(after.rows[t2].id == e.target);
        }
    }
}

impl MemoryStore {
    /// Counts one more rating of the memory `mnemonic`: as useful, or as not
    /// useful.
    pub fn rate(&mut self, mnemonic: &str, useful: bool) -> (done: Result<(), StoreError>)
        requires
            old(self).wf(),
        ensures
            final(self).wf(),
            match done {
                Ok(()) => old(self)@.has_mnemonic(mnemonic@) && final(self)@ == old(self)@.rated(
                    mnemonic@,
                    useful,
                ),
                Err(e) => e == StoreError::NotFound && !old(self)@.has_mnemonic(mnemonic@)
                    && final(self)@ == old(self)@,
            },
    {
        match self.find(&mnemonic.to_owned()) {
            Some(i) => {
                self.rate_at(i, useful);
                Ok(())
            },
            None => Err(StoreError::NotFound),
        }
    }

    /// Counts one more rating of the row at `i`.
    fn rate_at(&mut self, i: usize, useful: bool)
        requires
            old(self).wf(),
            i < old(self).rows.len(),
        ensures
            final(self).wf(),
            final(self)@ == (StoreView {
                rows: old(self)@.rows.update(
                    i as int,
                    rated_row(old(self)@.rows[i as int], useful),
                ),
                ..old(self)@
            }),
    {
        let ghost before = self@;
        proof {
            assert(before.row_ok(before.rows[i as int]));
            before.lemma_only_one(i as int);
            before.lemma_with_row(i as int, rated_row(before.rows[i as int], useful));
        }
        if useful {
            let count: i64 = self.rows[i].useful_count;
            if count < i64::MAX {
                self.rows[i].useful_count = count + 1;
            }
        } else {
            let count: i64 = self.rows[i].not_useful_count;
            if count < i64::MAX {
                self.rows[i].not_useful_count = count + 1;
            }
        }
        assert(self@.rows =~= before.rows.update(
            i as int,
            rated_row(before.rows[i as int], useful),
        ));
    }

    /// Rates each of `mnemonics` that the store holds, in turn, and returns
    /// those that it does not hold, in their order.
    pub fn rate_batch(&mut self, mnemonics: &Vec<String>, useful: bool) -> (missing: Vec<String>)
        requires
            old(self).wf(),
        ensures
            final(self).wf(),
            final(self)@ == old(self)@.rated_each(texts(mnemonics@), useful),
            texts(missing@) == texts(mnemonics@).filter(old(self)@.unknown()),
    {
        let ghost before = self@;
        let ghost names = texts(mnemonics@);
        let ghost lost = before.unknown();
        let mut missing: Vec<String> = Vec::new();
        let mut i: usize = 0;
        proof {
            reveal(Seq::filter);
            assert(names.take(0) =~= Seq::empty());
            assert(texts(missing@) =~= names.take(0).filter(lost));
        }
        while i < mnemonics.len()
            invariant
                i <= mnemonics.len(),
                self.wf(),
                before.wf(),
                names == texts(mnemonics@),
                lost == before.unknown(),
                self@ == before.rated_each(names.take(i as int), useful),
                texts(missing@) == names.take(i as int).filter(lost),
                forall|m: Seq<char>| self@.has_mnemonic(m) <==> before.has_mnemonic(m),
            decreases mnemonics.len() - i,
        {
            let ghost here = self@;
            proof {
                assert(names.take(i + 1).drop_last() =~= names.take(i as int));
                assert(names.take(i + 1).last() == mnemonics@[i as int]@);
                assert(names.take(i + 1) =~= names.take(i as int).push(names[i as int]));
                names.take(i as int).lemma_filter_push(names[i as int], lost);
            }
            match self.find(&mnemonics[i]) {
                Some(at) => {
                    self.rate_at(at, useful);
                    proof {
                        let after = self@;
                        assert forall|m: Seq<char>| after.has_mnemonic(m) <==> here.has_mnemonic(
                            m,
                        ) by {
                            if here.has_mnemonic(m) {
                                let j = here.position(m);
                                assert(after.rows[j].mnemonic == m);
                            }
                            if after.has_mnemonic(m) {
                                let j = after.position(m);
                                assert(here.rows[j].mnemonic == m);
                            }
                        }
                    }
                },
                None => {
                    let ghost listed = texts(missing@);
                    missing.push(mnemonics[i].clone());
                    assert(texts(missing@) =~= listed.push(names[i as int]));
                },
            }
            i += 1;
        }
        assert(names.take(mnemonics.len() as int) =~= names);
        missing
    }

    /// Deletes the memory `mnemonic` with its embedding and every link that
    /// touches it. Returns whether there was such a memory.
    pub fn delete_memory(&mut self, mnemonic: &str) -> (deleted: bool)
        requires
            old(self).wf(),
        ensures
            final(self).wf(),
            deleted == old(self)@.has_mnemonic(mnemonic@),
            deleted ==> final(self)@ == old(self)@.deleted(mnemonic@),
            !deleted ==> final(self)@ == old(self)@,
    {
        match self.find(&mnemonic.to_owned()) {
            Some(i) => {
                let ghost before = self@;
                let id: i64 = self.rows[i].id;
                assert(before.rows[i as int].id == id);
                proof {
                    before.lemma_deleted(mnemonic@);
                }
                self.rows.remove(i);
                self.links = drop_edges_of(&self.links, id);
                assert(self@.rows =~= before.rows.remove(i as int));
                true
            },
            None => false,
        }
    }

    /// Writes the memory `mnemonic` again: new content, tags and embedding.
    /// Unlike a write through `upsert`, this needs the memory to be there.
    pub fn update_memory(
        &mut self,
        mnemonic: &str,
        content: &str,
        tags: &Vec<String>,
        embedding: &Vec<u8>,
        now: i64,
    ) -> (done: Result<(), StoreError>)
        requires
            old(self).wf(),
        ensures
            final(self).wf(),
            done == old(self)@.update_outcome(mnemonic@, embedding@),
            done is Ok ==> final(self)@ == old(self)@.updated(
                mnemonic@,
                content@,
                texts(tags@),
                embedding@,
                now,
            ),
            done is Err ==> final(self)@ == old(self)@,
    {
        let i = match self.find(&mnemonic.to_owned()) {
            Some(i) => i,
            None => {
                return Err(StoreError::NotFound);
            },
        };
        if embedding.len() != EMBED_BYTES {
            return Err(StoreError::BadEmbedding);
        }
        let ghost before = self@;
        let ghost row = rewritten(before.rows[i as int], content@, texts(tags@), embedding@, now);
        proof {
            assert(before.row_ok(before.rows[i as int]));
            before.lemma_only_one(i as int);
            before.lemma_with_row(i as int, row);
        }
        self.rows[i].content = content.to_owned();
        self.rows[i].tags = copy_tags(tags);
        self.rows[i].embedding = copy_bytes(embedding);
        self.rows[i].updated_at = now;
        assert(self@.rows =~= before.rows.update(i as int, row));
        Ok(())
    }

    /// Renames the memory `old_mnemonic` to `new_mnemonic`, and gives it
    /// `embedding`, the embedding of its new mnemonic.
    pub fn rename_memory(
        &mut self,
        old_mnemonic: &str,
        new_mnemonic: &str,
        embedding: &Vec<u8>,
        now: i64,
    ) -> (done: Result<(), StoreError>)
        requires
            old(self).wf(),
        ensures
            final(self).wf(),
            done == old(self)@.rename_outcome(old_mnemonic@, new_mnemonic@, embedding@),
            done is Ok ==> final(self)@ == old(self)@.renamed(
                old_mnemonic@,
                new_mnemonic@,
                embedding@,
                now,
            ),
            done is Err ==> final(self)@ == old(self)@,
    {
        let i = match self.find(&old_mnemonic.to_owned()) {
            Some(i) => i,
            None => {
                return Err(StoreError::NotFound);
            },
        };
        let new_key = new_mnemonic.to_owned();
        match self.find(&new_key) {
            Some(j) => {
                if j != i {
                    proof {
                        self@.lemma_only_one(i as int);
                    }
                    return Err(StoreError::MnemonicTaken);
                }
            },
            None => {},
        }
        if embedding.len() != EMBED_BYTES {
            return Err(StoreError::BadEmbedding);
        }
        let ghost before = self@;
        let ghost row = RowView {
            mnemonic: new_mnemonic@,
            embedding: embedding@,
            updated_at: now,
            ..before.rows[i as int]
        };
        proof {
            assert(before.row_ok(before.rows[i as int]));
            before.lemma_only_one(i as int);
            before.lemma_with_row(i as int, row);
        }
        self.rows[i].mnemonic = new_key;
        self.rows[i].embedding = copy_bytes(embedding);
        self.rows[i].updated_at = now;
        assert(self@.rows =~= before.rows.update(i as int, row));
        Ok(())
    }

    /// Edits the memory `mnemonic`: adds the tags of `add_tags` that it
    /// lacks, takes out those of `remove_tags`, and, where `new_mnemonic` is
    /// given, renames it and gives it `new_embedding`. An edit must ask for
    /// some change, and a rename must come with the new embedding.
    pub fn edit_memory(
        &mut self,
        mnemonic: &str,
        new_mnemonic: Option<&str>,
        add_tags: &Vec<String>,
        remove_tags: &Vec<String>,
        new_embedding: Option<&Vec<u8>>,
        now: i64,
    ) -> (done: Result<EditResult, StoreError>)
        requires
            old(self).wf(),
        ensures
            final(self).wf(),
            match done {
                Ok(report) => {
                    &&& old(self)@.edit_obstacle(
                        mnemonic@,
                        opt_text(new_mnemonic),
                        texts(add_tags@),
                        texts(remove_tags@),
                        opt_bytes(new_embedding),
                    ) is None
                    &&& report@ == old(self)@.edit_report(
                        mnemonic@,
                        opt_text(new_mnemonic),
                        texts(add_tags@),
                        texts(remove_tags@),
                    )
                    &&& final(self)@ == old(self)@.edited(
                        mnemonic@,
                        opt_text(new_mnemonic),
                        texts(add_tags@),
                        texts(remove_tags@),
                        opt_bytes(new_embedding),
                        now,
                    )
                },
                Err(e) => {
                    &&& old(self)@.edit_obstacle(
                        mnemonic@,
                        opt_text(new_mnemonic),
                        texts(add_tags@),
                        texts(remove_tags@),
                        opt_bytes(new_embedding),
                    ) == Some(e)
                    &&& final(self)@ == old(self)@
                },
            },
    {
        if new_mnemonic.is_none() && add_tags.len() == 0 && remove_tags.len() == 0 {
            return Err(StoreError::EmptyEdit);
        }
        let i = match self.find(&mnemonic.to_owned()) {
            Some(i) => i,
            None => {
                return Err(StoreError::NotFound);
            },
        };
        let ghost before = self@;
        let ghost row = edited_row(
            before.rows[i as int],
            opt_text(new_mnemonic),
            texts(add_tags@),
            texts(remove_tags@),
            opt_bytes(new_embedding),
            now,
        );
        proof {
            assert(before.row_ok(before.rows[i as int]));
            before.lemma_only_one(i as int);
        }
        let renaming: Option<(String, Vec<u8>)> = match new_mnemonic {
            Some(name) => {
                let embedding = match new_embedding {
                    Some(embedding) => embedding,
                    None => {
                        return Err(StoreError::EmbeddingRequired);
                    },
                };
                let new_key = name.to_owned();
                match self.find(&new_key) {
                    Some(j) => {
                        if j != i {
                            return Err(StoreError::MnemonicTaken);
                        }
                    },
                    None => {},
                }
                if embedding.len() != EMBED_BYTES {
                    return Err(StoreError::BadEmbedding);
                }
                Some((new_key, copy_bytes(embedding)))
            },
            None => None,
        };
        proof {
            before.lemma_with_row(i as int, row);
        }
        let tags = edit_tags(&self.rows[i].tags, add_tags, remove_tags);
        let report_tags = copy_tags(&tags);
        self.rows[i].tags = tags;
        self.rows[i].updated_at = now;
        let final_mnemonic = match renaming {
            Some((name, embedding)) => {
                let shown = name.clone();
                self.rows[i].mnemonic = name;
                self.rows[i].embedding = embedding;
                shown
            },
            None => mnemonic.to_owned(),
        };
        assert(self@.rows =~= before.rows.update(i as int, row));
        Ok(
            EditResult {
                old_mnemonic: mnemonic.to_owned(),
                new_mnemonic: final_mnemonic,
                tags: report_tags,
                re_embedded: new_mnemonic.is_some(),
            },
        )
    }

    /// Renames the tag `old_tag` to `new_tag` in every memory that has it,
    /// and returns how many memories that was. In such a memory `old_tag`
    /// leaves, `new_tag` comes last unless it is there already, and the time
    /// of the last change is `now`.
    pub fn rename_tag(&mut self, old_tag: &str, new_tag: &str, now: i64) -> (count: usize)
        requires
            old(self).wf(),
        ensures
            final(self).wf(),
            final(self)@ == old(self)@.tag_renamed(old_tag@, new_tag@, now),
            count == old(self)@.rows.filter(tagged_with(old_tag@)).len(),
    {
        let ghost before = self@;
        let ghost change = tag_renamer(old_tag@, new_tag@, now);
        let ghost has = tagged_with(old_tag@);
        let mut count: usize = 0;
        let mut i: usize = 0;
        proof {
            reveal(Seq::filter);
            assert(before.rows.take(0) =~= Seq::empty());
        }
        while i < self.rows.len()
            invariant
                i <= self.rows.len(),
                self.rows.len() == before.rows.len(),
                change == tag_renamer(old_tag@, new_tag@, now),
                has == tagged_with(old_tag@),
                self@.edges == before.edges,
                self@.next_id == before.next_id,
                self@.boost_tags == before.boost_tags,
                count == before.rows.take(i as int).filter(has).len(),
                count <= i,
                forall|j: int| 0 <= j < i ==> (#[trigger] self@.rows[j]) == change(before.rows[j]),
                forall|j: int|
                    i <= j < before.rows.len() ==> (#[trigger] self@.rows[j]) == before.rows[j],
            decreases self.rows.len() - i,
        {
            let ghost here = self@;
            proof {
                assert(here.rows[i as int] == before.rows[i as int]);
                assert(before.rows.take(i + 1) =~= before.rows.take(i as int).push(
                    before.rows[i as int],
                ));
                before.rows.take(i as int).lemma_filter_push(before.rows[i as int], has);
            }
            if has_tag(&self.rows[i].tags, old_tag) {
                let tags = rename_in_tags(&self.rows[i].tags, old_tag, new_tag);
                self.rows[i].tags = tags;
                self.rows[i].updated_at = now;
                count += 1;
                assert(self@.rows =~= here.rows.update(i as int, change(before.rows[i as int])));
            }
            i += 1;
        }
        proof {
            assert(before.rows.take(before.rows.len() as int) =~= before.rows);
            let after = before.tag_renamed(old_tag@, new_tag@, now);
            assert(self@.rows =~= after.rows);
            assert forall|j: int| 0 <= j < after.rows.len() implies {
                &&& (#[trigger] after.rows[j]).id == before.rows[j].id
                &&& after.rows[j].mnemonic == before.rows[j].mnemonic
                &&& after.rows[j].uuid == before.rows[j].uuid
                &&& before.row_ok(after.rows[j])
            } by {
                assert(before.row_ok(before.rows[j]));
            }
            before.lemma_same_keys(after.rows);
        }
        count
    }
}

/// The links of `edges` that do not touch the row `id`.
pub(crate) fn drop_edges_of(edges: &Vec<Edge>, id: i64) -> (kept: Vec<
    Edge,
>)
    ensures
        kept@ == edges@.filter(apart_from(id)),
{
    let mut out: Vec<Edge> = Vec::new();
    let mut i: usize = 0;
    let ghost keep = apart_from(id);
    proof {
        reveal(Seq::filter);
        assert(edges@.take(0) =~= Seq::empty());
    }
    while i < edges.len()
        invariant
            i <= edges.len(),
            keep == apart_from(id),
            out@ == edges@.take(i as int).filter(keep),
        decreases edges.len() - i,
    {
        let e = edges[i];
        proof {
            assert(edges@.take(i + 1) =~= edges@.take(i as int).push(e));
            edges@.take(i as int).lemma_filter_push(e, keep);
        }
        if e.source != id && e.target != id {
            out.push(e);
        }
        i += 1;
    }
    assert(edges@.take(edges.len() as int) =~= edges@);
    out
}

} // verus!
