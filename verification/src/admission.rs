//! Admission of a memory that was just written: a near duplicate is merged
//! into it, and otherwise its near neighbours are linked to it.

use vstd::prelude::*;
use crate::model::{
    LinkType, MemorizeNeighbor, MemorizeResult, MemorizeView, Neighbor, NeighborView, StoreError,
    neighbor_views, AUTO_LINK_MAX_NEIGHBORS, EMBED_BYTES, AUTO_LINK_THRESHOLD, AUTO_MERGE_THRESHOLD,
};
use crate::store::{MemoryStore, StoreView};
use crate::write::fresh_uuid;
use crate::tags::copy_tags;
use crate::text::texts;

verus! {

/// The part of the index's answer that a write listens to: its first
/// `AUTO_LINK_MAX_NEIGHBORS + 1` entries, one more than the neighbours
/// wanted because the memory itself is among them.
pub open spec fn heard(nearest: Seq<Neighbor>) -> Seq<Neighbor> {
    if nearest.len() <= AUTO_LINK_MAX_NEIGHBORS + 1 {
        nearest
    } else {
        nearest.take(AUTO_LINK_MAX_NEIGHBORS + 1)
    }
}

impl StoreView {
    /// The predicate "is a row of the store, other than `me`, closer than
    /// `threshold`".
    pub open spec fn near(self, me: i64, threshold: u64) -> spec_fn(Neighbor) -> bool {
        |n: Neighbor| self.has_id(n.memory_id) && n.memory_id != me && n.distance < threshold
    }

    /// The neighbours of the row `me` that are close enough to be linked,
    /// nearest first.
    pub open spec fn close_to(self, me: i64, nearest: Seq<Neighbor>) -> Seq<Neighbor> {
        heard(nearest).filter(self.near(me, AUTO_LINK_THRESHOLD))
    }

    /// The neighbours of the row `me` that are close enough to be merged,
    /// nearest first.
    pub open spec fn duplicates_of(self, me: i64, nearest: Seq<Neighbor>) -> Seq<Neighbor> {
        heard(nearest).filter(self.near(me, AUTO_MERGE_THRESHOLD))
    }

    /// A neighbour as it is reported: with the mnemonic and the tags of its row.
    pub open spec fn reported(self, n: Neighbor) -> NeighborView {
        NeighborView {
            mnemonic: self.row_of_id(n.memory_id).mnemonic,
            distance: n.distance,
            tags: self.row_of_id(n.memory_id).tags,
        }
    }

    /// The function that reports a neighbour of this store.
    pub open spec fn reporter(self) -> spec_fn(Neighbor) -> NeighborView {
        |n: Neighbor| self.reported(n)
    }

    /// The store with a `related` link from the row `me` to each of `others`.
    pub open spec fn linked_to_each(self, me: i64, others: Seq<Neighbor>, now: i64) -> StoreView
        decreases others.len(),
    {
        if others.len() == 0 {
            self
        } else {
            self.linked_to_each(me, others.drop_last(), now).with_edge(
                me,
                others.last().memory_id,
                LinkType::Related,
                now,
            )
        }
    }

    /// What admission reports of the row `me`, given the index's answer.
    pub open spec fn admission(self, me: i64, nearest: Seq<Neighbor>) -> MemorizeView {
        MemorizeView {
            merged_with: if self.duplicates_of(me, nearest).len() > 0 {
                Some(self.row_of_id(self.duplicates_of(me, nearest)[0].memory_id).mnemonic)
            } else {
                None
            },
            neighbors: self.close_to(me, nearest).map_values(self.reporter()),
        }
    }

    /// The store after the row `me` is admitted. If a neighbour is closer
    /// than `AUTO_MERGE_THRESHOLD`, the nearest such is absorbed by `me`, and
    /// nothing is linked. Otherwise every neighbour closer than
    /// `AUTO_LINK_THRESHOLD` is linked to `me`.
    pub open spec fn admitted(self, me: i64, nearest: Seq<Neighbor>, now: i64) -> StoreView {
        if self.duplicates_of(me, nearest).len() > 0 {
            self.absorbed(me, self.duplicates_of(me, nearest)[0].memory_id, now)
        } else {
            self.linked_to_each(me, self.close_to(me, nearest), now)
        }
    }

    /// Where the row called `mnemonic` has just been written as
    /// `upserted` says: the store after its admission.
    pub open spec fn memorized(
        self,
        mnemonic: Seq<char>,
        content: Seq<char>,
        tags: Seq<Seq<char>>,
        embedding: Seq<u8>,
        uuid: Seq<char>,
        nearest: Seq<Neighbor>,
        now: i64,
    ) -> StoreView {
        let written = self.upserted(mnemonic, content, tags, embedding, uuid, now);
        written.admitted(written.id_of(mnemonic), nearest, now)
    }

    /// What writing and admitting the row called `mnemonic` reports.
    pub open spec fn memorize_report(
        self,
        mnemonic: Seq<char>,
        content: Seq<char>,
        tags: Seq<Seq<char>>,
        embedding: Seq<u8>,
        uuid: Seq<char>,
        nearest: Seq<Neighbor>,
        now: i64,
    ) -> MemorizeView {
        let written = self.upserted(mnemonic, content, tags, embedding, uuid, now);
        written.admission(written.id_of(mnemonic), nearest)
    }

    /// What holds of a store `after` and of the answer `done` once the row
    /// called `mnemonic` was to be written, with `uuid` at hand for a new row,
    /// and received.
    pub open spec fn memorize_holds(
        self,
        after: StoreView,
        done: Result<MemorizeView, StoreError>,
        mnemonic: Seq<char>,
        content: Seq<char>,
        tags: Seq<Seq<char>>,
        embedding: Seq<u8>,
        uuid: Seq<char>,
        nearest: Seq<Neighbor>,
        now: i64,
    ) -> bool {
        match done {
            Ok(report) => {
                &&& self.upsert_outcome(mnemonic, embedding, uuid) is Ok
                &&& report == self.memorize_report(
                    mnemonic,
                    content,
                    tags,
                    embedding,
                    uuid,
                    nearest,
                    now,
                )
                &&& after == self.memorized(mnemonic, content, tags, embedding, uuid, nearest, now)
            },
            Err(e) => {
                &&& self.upsert_outcome(mnemonic, embedding, uuid) == Err::<i64, StoreError>(e)
                &&& after == self
            },
        }
    }

    /// Linking a row to rows of the store keeps the store well formed, and
    /// changes no row.
    pub proof fn lemma_linked_to_each(self, me: i64, others: Seq<Neighbor>, now: i64)
        requires
            self.wf(),
            self.has_id(me),
            forall|i: int|
                0 <= i < others.len() ==> self.has_id((#[trigger] others[i]).memory_id)
                    && others[i].memory_id != me,
        ensures
            self.linked_to_each(me, others, now).wf(),
            self.linked_to_each(me, others, now).rows == self.rows,
            self.linked_to_each(me, others, now).next_id == self.next_id,
            self.linked_to_each(me, others, now).boost_tags == self.boost_tags,
        decreases others.len(),
    {
        if others.len() > 0 {
            let head = others.drop_last();
            assert forall|i: int| 0 <= i < head.len() implies self.has_id(
                (#[trigger] head[i]).memory_id,
            ) && head[i].memory_id != me by {
                assert(head[i] == others[i]);
            }
            self.lemma_linked_to_each(me, head, now);
            let mid = self.linked_to_each(me, head, now);
            let last = others[others.len() - 1];
            assert(self.has_id(last.memory_id));
            assert(mid.has_id(me) && mid.has_id(last.memory_id)) by {
                let a = self.position_of_id(me);
                let b = self.position_of_id(last.memory_id);
                assert(mid.rows[a].id == me);
                assert(mid.rows[b].id == last.memory_id);
            }
            mid.lemma_with_edge(me, last.memory_id, LinkType::Related, now);
        }
    }
}

/// The mathematical value of what a write answers.
pub open spec fn report_view(done: Result<MemorizeResult, StoreError>) -> Result<
    MemorizeView,
    StoreError,
> {
    match done {
        Ok(report) => Ok(report@),
        Err(e) => Err(e),
    }
}

impl MemoryStore {
    /// A neighbour as it is reported.
    fn report(&self, n: Neighbor) -> (out: MemorizeNeighbor)
        requires
            self.wf(),
            self@.has_id(n.memory_id),
        ensures
            out@ == self@.reported(n),
    {
        match self.find_id(n.memory_id) {
            Some(i) => MemorizeNeighbor {
                mnemonic: self.rows[i].mnemonic.clone(),
                distance: n.distance,
                tags: copy_tags(&self.rows[i].tags),
            },
            None => {
                proof {
                    assert(false);
                }
                MemorizeNeighbor { mnemonic: String::new(), distance: 0, tags: Vec::new() }
            },
        }
    }

    /// Receives the row `memory_id`, which was just written. `nearest` is the
    /// answer of the vector index for the row's embedding, nearest first,
    /// asked for once the row is written: the row itself is among its
    /// entries and is passed over. Entries that name no row of the store are
    /// passed over too.
    pub fn receive(&mut self, memory_id: i64, nearest: &Vec<Neighbor>, now: i64) -> (done: Result<
        MemorizeResult,
        StoreError,
    >)
        requires
            old(self).wf(),
        ensures
            final(self).wf(),
            match done {
                Ok(report) => {
                    &&& old(self)@.has_id(memory_id)
                    &&& report@ == old(self)@.admission(memory_id, nearest@)
                    &&& final(self)@ == old(self)@.admitted(memory_id, nearest@, now)
                },
                Err(e) => {
                    &&& e == StoreError::NotFound
                    &&& !old(self)@.has_id(memory_id)
                    &&& final(self)@ == old(self)@
                },
            },
    {
        let me = match self.find_id(memory_id) {
            Some(i) => i,
            None => {
                return Err(StoreError::NotFound);
            },
        };
        let ghost before = self@;
        let ghost all = heard(nearest@);
        let ghost link_near = before.near(memory_id, AUTO_LINK_THRESHOLD);
        let ghost merge_near = before.near(memory_id, AUTO_MERGE_THRESHOLD);
        let ghost show = before.reporter();
        let n: usize = if nearest.len() <= AUTO_LINK_MAX_NEIGHBORS + 1 {
            nearest.len()
        } else {
            AUTO_LINK_MAX_NEIGHBORS + 1
        };
        let mut close: Vec<Neighbor> = Vec::new();
        let mut neighbors: Vec<MemorizeNeighbor> = Vec::new();
        let mut duplicate: Option<usize> = None;
        let mut i: usize = 0;
        proof {
            reveal(Seq::filter);
            assert(all.take(0) =~= Seq::empty());
            assert(neighbor_views(neighbors@) =~= close@.map_values(show));
        }
        while i < n
            invariant
                i <= n,
                n == all.len(),
                n <= nearest.len(),
                self.wf(),
                self@ == before,
                me < self.rows.len(),
                before.rows[me as int].id == memory_id,
                all == heard(nearest@),
                link_near == before.near(memory_id, AUTO_LINK_THRESHOLD),
                merge_near == before.near(memory_id, AUTO_MERGE_THRESHOLD),
                show == before.reporter(),
                close@ == all.take(i as int).filter(link_near),
                neighbor_views(neighbors@) == close@.map_values(show),
                match duplicate {
                    Some(d) => {
                        &&& all.take(i as int).filter(merge_near).len() > 0
                        &&& d < self.rows.len()
                        &&& before.rows[d as int].id == all.take(i as int).filter(
                            merge_near,
                        )[0].memory_id
                        &&& d != me
                    },
                    None => all.take(i as int).filter(merge_near).len() == 0,
                },
            decreases n - i,
        {
            let x = nearest[i];
            proof {
                assert(all[i as int] == x);
                assert(all.take(i + 1) =~= all.take(i as int).push(x));
                all.take(i as int).lemma_filter_push(x, link_near);
                all.take(i as int).lemma_filter_push(x, merge_near);
            }
            if x.memory_id != memory_id {
                match self.find_id(x.memory_id) {
                    Some(at) => {
                        if x.distance < AUTO_LINK_THRESHOLD {
                            let ghost shown = neighbor_views(neighbors@);
                            let ghost listed = close@;
                            close.push(x);
                            let r = self.report(x);
                            neighbors.push(r);
                            assert(neighbor_views(neighbors@) =~= shown.push(show(x)));
                            assert(listed.push(x).map_values(show) =~= shown.push(show(x)));
                        }
                        if x.distance < AUTO_MERGE_THRESHOLD && duplicate.is_none() {
                            assert(before.rows[at as int].id == x.memory_id);
                            assert(all.take(i as int).filter(merge_near).push(x)[0] == x);
                            duplicate = Some(at);
                        }
                    },
                    None => {},
                }
            }
            i += 1;
        }
        assert(all.take(n as int) =~= all);
        let merged_with = match duplicate {
            Some(d) => {
                let name = self.rows[d].mnemonic.clone();
                proof {
                    before.lemma_position_of_id(before.rows[d as int].id, d as int);
                }
                self.absorb(me, d, now);
                Some(name)
            },
            None => {
                let mut j: usize = 0;
                proof {
                    assert(close@.take(0) =~= Seq::empty());
                    assert forall|a: int| 0 <= a < close@.len() implies before.has_id(
                        (#[trigger] close@[a]).memory_id,
                    ) && close@[a].memory_id != memory_id by {
                        all.lemma_filter_pred(link_near, a);
                    }
                }
                while j < close.len()
                    invariant
                        j <= close.len(),
                        before.wf(),
                        before.has_id(memory_id),
                        forall|a: int|
                            0 <= a < close@.len() ==> before.has_id(
                                (#[trigger] close@[a]).memory_id,
                            ) && close@[a].memory_id != memory_id,
                        self@ == before.linked_to_each(memory_id, close@.take(j as int), now),
                    decreases close.len() - j,
                {
                    proof {
                        assert(close@.take(j + 1).drop_last() =~= close@.take(j as int));
                        assert(close@.take(j + 1).last() == close@[j as int]);
                    }
                    self.add_link(memory_id, close[j].memory_id, LinkType::Related, now);
                    j += 1;
                }
                proof {
                    assert(close@.take(close.len() as int) =~= close@);
                    before.lemma_linked_to_each(memory_id, close@, now);
                }
                None
            },
        };
        Ok(MemorizeResult { merged_with, neighbors })
    }

    /// Writes a memory and receives it, for a caller that holds the answer of
    /// the vector index for the store as it is once the row is written. The
    /// external identifier of a new row is `uuid`.
    pub fn memorize_with_uuid(
        &mut self,
        uuid: String,
        mnemonic: &str,
        content: &str,
        tags: &Vec<String>,
        embedding: &Vec<u8>,
        nearest: &Vec<Neighbor>,
        now: i64,
    ) -> (done: Result<MemorizeResult, StoreError>)
        requires
            old(self).wf(),
        ensures
            final(self).wf(),
            old(self)@.memorize_holds(
                final(self)@,
                report_view(done),
                mnemonic@,
                content@,
                texts(tags@),
                embedding@,
                uuid@,
                nearest@,
                now,
            ),
    {
        let ghost before = self@;
        let id = match self.upsert_with_uuid(uuid, mnemonic, content, tags, embedding, now) {
            Ok(id) => id,
            Err(e) => {
                return Err(e);
            },
        };
        proof {
            let written = self@;
            if before.has_mnemonic(mnemonic@) {
                let i = before.position(mnemonic@);
                assert(written.rows[i].mnemonic == mnemonic@);
                assert(written.rows[i].id == id);
                written.lemma_position(mnemonic@, i);
            } else {
                let i = before.rows.len() as int;
                assert(written.rows[i].mnemonic == mnemonic@);
                written.lemma_position(mnemonic@, i);
            }
            assert(written.id_of(mnemonic@) == id);
        }
        match self.receive(id, nearest, now) {
            Ok(report) => Ok(report),
            Err(e) => {
                proof {
                    assert(false);
                }
                Err(e)
            },
        }
    }

    /// Writes a memory and receives it: the whole write, for a caller that
    /// holds the answer of the vector index for the store as it is once the
    /// row is written. A new row gets a random external identifier.
    pub fn memorize(
        &mut self,
        mnemonic: &str,
        content: &str,
        tags: &Vec<String>,
        embedding: &Vec<u8>,
        nearest: &Vec<Neighbor>,
        now: i64,
    ) -> (done: Result<MemorizeResult, StoreError>)
        requires
            old(self).wf(),
        ensures
            final(self).wf(),
            exists|uuid: Seq<char>| #[trigger]
                old(self)@.memorize_holds(
                    final(self)@,
                    report_view(done),
                    mnemonic@,
                    content@,
                    texts(tags@),
                    embedding@,
                    uuid,
                    nearest@,
                    now,
                ),
            old(self)@.has_mnemonic(mnemonic@) && embedding@.len() == EMBED_BYTES ==> done is Ok,
    {
        let uuid = fresh_uuid();
        let ghost chosen = uuid@;
        let done = self.memorize_with_uuid(uuid, mnemonic, content, tags, embedding, nearest, now);
        assert(old(self)@.memorize_holds(
            final(self)@,
            report_view(done),
            mnemonic@,
            content@,
            texts(tags@),
            embedding@,
            chosen,
            nearest@,
            now,
        ));
        done
    }
}

} // verus!
