//! Merging: one memory absorbs another, with its content, tags and links.

use vstd::prelude::*;
use crate::links::{lemma_filter_member, lemma_filter_order};
use crate::model::{Edge, RowView, StoreError, EMBED_BYTES};
use crate::store::{MemoryStore, StoreView, copy_bytes, has_triple, holds_triple, same_triple};
use crate::tags::{merge_tags, union_tags};
use crate::text::concat;

verus! {

/// Moves the source of a link from `gone` to `keep`, unless `edges` already
/// holds the link that this would give.
pub open spec fn resourced(edges: Seq<Edge>, keep: i64, gone: i64) -> spec_fn(Edge) -> Edge {
    |e: Edge|
        if e.source == gone && !has_triple(edges, keep, e.target, e.kind) {
            Edge { source: keep, ..e }
        } else {
            e
        }
}

/// Moves the target of a link from `gone` to `keep`, unless `edges` already
/// holds the link that this would give.
pub open spec fn retargeted(edges: Seq<Edge>, keep: i64, gone: i64) -> spec_fn(Edge) -> Edge {
    |e: Edge|
        if e.target == gone && !has_triple(edges, e.source, keep, e.kind) {
            Edge { target: keep, ..e }
        } else {
            e
        }
}

/// The predicate "joins two different rows, neither of them `gone`".
pub open spec fn settled(gone: i64) -> spec_fn(Edge) -> bool {
    |e: Edge| e.source != e.target && e.source != gone && e.target != gone
}

/// The links after the row `keep` takes over those of the row `gone`. Each
/// link that starts at `gone` now starts at `keep`, then each that ends at
/// `gone` now ends at `keep`; a link that would double one that is there
/// stays behind. What then joins `keep` to itself, or still touches `gone`,
/// is dropped. Order and times of creation are kept.
pub open spec fn transferred(edges: Seq<Edge>, keep: i64, gone: i64) -> Seq<Edge> {
    let moved = edges.map_values(resourced(edges, keep, gone));
    let landed = moved.map_values(retargeted(moved, keep, gone));
    landed.filter(settled(gone))
}

/// The surviving row of a merge: its own content, a blank line, and the
/// content of the row that goes; its own tags, then those of the other that
/// it lacks; changed at `now`.
pub open spec fn merged_row(keep: RowView, gone: RowView, now: i64) -> RowView {
    RowView {
        content: keep.content + "\n\n"@ + gone.content,
        tags: union_tags(keep.tags, gone.tags),
        updated_at: now,
        ..keep
    }
}

/// No two links of `edges` join the same rows with the same type.
pub open spec fn distinct_triples(edges: Seq<Edge>) -> bool {
    forall|i: int, j: int|
        0 <= i < j < edges.len() ==> !same_triple(#[trigger] edges[i], #[trigger] edges[j])
}

/// Moving sources keeps links distinct.
pub proof fn lemma_resourced_distinct(edges: Seq<Edge>, keep: i64, gone: i64)
    requires
        distinct_triples(edges),
    ensures
        distinct_triples(edges.map_values(resourced(edges, keep, gone))),
{
    let moved = edges.map_values(resourced(edges, keep, gone));
    assert forall|i: int, j: int| 0 <= i < j < moved.len() implies !same_triple(
        #[trigger] moved[i],
        #[trigger] moved[j],
    ) by {
        assert(!same_triple(edges[i], edges[j]));
        if same_triple(moved[i], moved[j]) {
            if moved[i] != edges[i] && moved[j] == edges[j] {
                assert(has_triple(edges, keep, edges[i].target, edges[i].kind));
            }
            if moved[j] != edges[j] && moved[i] == edges[i] {
                assert(has_triple(edges, keep, edges[j].target, edges[j].kind));
            }
        }
    }
}

/// Moving targets keeps links distinct.
pub proof fn lemma_retargeted_distinct(edges: Seq<Edge>, keep: i64, gone: i64)
    requires
        distinct_triples(edges),
    ensures
        distinct_triples(edges.map_values(retargeted(edges, keep, gone))),
{
    let moved = edges.map_values(retargeted(edges, keep, gone));
    assert forall|i: int, j: int| 0 <= i < j < moved.len() implies !same_triple(
        #[trigger] moved[i],
        #[trigger] moved[j],
    ) by {
        assert(!same_triple(edges[i], edges[j]));
        if same_triple(moved[i], moved[j]) {
            if moved[i] != edges[i] && moved[j] == edges[j] {
                assert(has_triple(edges, edges[i].source, keep, edges[i].kind));
            }
            if moved[j] != edges[j] && moved[i] == edges[i] {
                assert(has_triple(edges, edges[j].source, keep, edges[j].kind));
            }
        }
    }
}

impl StoreView {
    /// The store with a new embedding for the row `id`.
    pub open spec fn reembedded(self, id: i64, embedding: Seq<u8>) -> StoreView {
        let i = self.position_of_id(id);
        StoreView { rows: self.rows.update(i, RowView { embedding, ..self.rows[i] }), ..self }
    }

    /// The store after the row `keep` absorbs the row `gone`: `keep` becomes
    /// the merged row, `gone` leaves, and the links are transferred.
    pub open spec fn absorbed(self, keep: i64, gone: i64, now: i64) -> StoreView {
        let k = self.position_of_id(keep);
        let g = self.position_of_id(gone);
        StoreView {
            rows: self.rows.update(k, merged_row(self.rows[k], self.rows[g], now)).remove(g),
            edges: transferred(self.edges, keep, gone),
            ..self
        }
    }

    /// What `merge` answers.
    pub open spec fn merge_outcome(
        self,
        keep: Seq<char>,
        discard: Seq<char>,
        embedding: Seq<u8>,
    ) -> Result<(), StoreError> {
        if !self.has_mnemonic(keep) || !self.has_mnemonic(discard) {
            Err(StoreError::NotFound)
        } else if embedding.len() != EMBED_BYTES {
            Err(StoreError::BadEmbedding)
        } else if keep == discard {
            Err(StoreError::SameMemory)
        } else {
            Ok(())
        }
    }

    /// The store after `keep` absorbs `discard` and takes `embedding`.
    pub open spec fn merged(
        self,
        keep: Seq<char>,
        discard: Seq<char>,
        embedding: Seq<u8>,
        now: i64,
    ) -> StoreView {
        self.reembedded(self.id_of(keep), embedding).absorbed(
            self.id_of(keep),
            self.id_of(discard),
            now,
        )
    }

    /// Absorbing keeps the store well formed. The row that goes is gone, every
    /// other row is still there, and no mnemonic is new.
    pub proof fn lemma_absorbed(self, keep: i64, gone: i64, now: i64)
        requires
            self.wf(),
            self.has_id(keep),
            self.has_id(gone),
            keep != gone,
        ensures
            self.absorbed(keep, gone, now).wf(),
            forall|id: i64|
                self.absorbed(keep, gone, now).has_id(id) <==> self.has_id(id) && id != gone,
            forall|m: Seq<char>|
                self.absorbed(keep, gone, now).has_mnemonic(m) <==> self.has_mnemonic(m) && m
                    != self.row_of_id(gone).mnemonic,
            self.absorbed(keep, gone, now).rows.len() == self.rows.len() - 1,
    {
        let after = self.absorbed(keep, gone, now);
        let k = self.position_of_id(keep);
        let g = self.position_of_id(gone);
        let merged = merged_row(self.rows[k], self.rows[g], now);
        let staged = self.rows.update(k, merged);
        assert(self.row_ok(self.rows[k]));
        assert(after.rows.len() == self.rows.len() - 1);
        assert forall|j: int| 0 <= j < after.rows.len() implies {
            let o = if j < g {
                j
            } else {
                j + 1
            };
            &&& (#[trigger] after.rows[j]) == staged[o]
            &&& after.rows[j].id == self.rows[o].id
            &&& after.rows[j].mnemonic == self.rows[o].mnemonic
            &&& after.rows[j].uuid == self.rows[o].uuid
            &&& after.row_ok(after.rows[j])
        } by {
            let o = if j < g {
                j
            } else {
                j + 1
            };
            assert(self.row_ok(self.rows[o]));
        }
        assert forall|a: int, b: int| 0 <= a < b < after.rows.len() implies {
            &&& (#[trigger] after.rows[a]).id < (#[trigger] after.rows[b]).id
            &&& after.rows[a].mnemonic != after.rows[b].mnemonic
            &&& after.rows[a].uuid != after.rows[b].uuid
        } by {
            let oa = if a < g {
                a
            } else {
                a + 1
            };
            let ob = if b < g {
                b
            } else {
                b + 1
            };
            assert(self.rows[oa].id < self.rows[ob].id);
            assert(self.rows[oa].mnemonic != self.rows[ob].mnemonic);
            assert(self.rows[oa].uuid != self.rows[ob].uuid);
        }
        assert forall|id: i64| after.has_id(id) <==> self.has_id(id) && id != gone by {
            if self.has_id(id) && id != gone {
                let o = self.position_of_id(id);
                let j = if o < g {
                    o
                } else {
                    o - 1
                };
                assert(after.rows[j].id == id);
            }
            if after.has_id(id) {
                let j = after.position_of_id(id);
                let o = if j < g {
                    j
                } else {
                    j + 1
                };
                assert(self.rows[o].id == id);
                if o < g {
                    assert(self.rows[o].id < self.rows[g].id);
                } else {
                    assert(self.rows[g].id < self.rows[o].id);
                }
            }
        }
        assert forall|m: Seq<char>| after.has_mnemonic(m) <==> self.has_mnemonic(m) && m
            != self.row_of_id(gone).mnemonic by {
            if self.has_mnemonic(m) && m != self.rows[g].mnemonic {
                let o = self.position(m);
                let j = if o < g {
                    o
                } else {
                    o - 1
                };
                assert(after.rows[j].mnemonic == m);
            }
            if after.has_mnemonic(m) {
                let j = after.position(m);
                let o = if j < g {
                    j
                } else {
                    j + 1
                };
                assert(self.rows[o].mnemonic == m);
                if o < g {
                    assert(self.rows[o].mnemonic != self.rows[g].mnemonic);
                } else {
                    assert(self.rows[g].mnemonic != self.rows[o].mnemonic);
                }
            }
        }
        let moved = self.edges.map_values(resourced(self.edges, keep, gone));
        let landed = moved.map_values(retargeted(moved, keep, gone));
        lemma_resourced_distinct(self.edges, keep, gone);
        lemma_retargeted_distinct(moved, keep, gone);
        assert forall|i: int| 0 <= i < after.edges.len() implies after.edge_ok(
            #[trigger] after.edges[i],
        ) by {
            lemma_filter_member(landed, settled(gone), i);
            let a = choose|a: int| 0 <= a < landed.len() && landed[a] == after.edges[i];
            assert(self.edge_ok(self.edges[a]));
        }
        assert forall|i: int, j: int| 0 <= i < j < after.edges.len() implies !same_triple(
            #[trigger] after.edges[i],
            #[trigger] after.edges[j],
        ) by {
            lemma_filter_order(landed, settled(gone), i, j);
        }
    }
}

/// The links after the row `keep` takes over those of the row `gone`.
pub(crate) fn transfer(edges: &Vec<Edge>, keep: i64, gone: i64) -> (out: Vec<Edge>)
    ensures
        out@ == transferred(edges@, keep, gone),
{
    let mut moved: Vec<Edge> = Vec::new();
    let mut i: usize = 0;
    let ghost by_source = resourced(edges@, keep, gone);
    while i < edges.len()
        invariant
            i <= edges.len(),
            by_source == resourced(edges@, keep, gone),
            moved@ == edges@.take(i as int).map_values(by_source),
        decreases edges.len() - i,
    {
        let e = edges[i];
        let next = if e.source == gone && !holds_triple(edges, keep, e.target, e.kind) {
            Edge { source: keep, target: e.target, kind: e.kind, created_at: e.created_at }
        } else {
            e
        };
        moved.push(next);
        assert(moved@ =~= edges@.take(i + 1).map_values(by_source));
        i += 1;
    }
    assert(edges@.take(edges.len() as int) =~= edges@);
    let mut landed: Vec<Edge> = Vec::new();
    let mut i: usize = 0;
    let ghost by_target = retargeted(moved@, keep, gone);
    while i < moved.len()
        invariant
            i <= moved.len(),
            by_target == retargeted(moved@, keep, gone),
            landed@ == moved@.take(i as int).map_values(by_target),
        decreases moved.len() - i,
    {
        let e = moved[i];
        let next = if e.target == gone && !holds_triple(&moved, e.source, keep, e.kind) {
            Edge { source: e.source, target: keep, kind: e.kind, created_at: e.created_at }
        } else {
            e
        };
        landed.push(next);
        assert(landed@ =~= moved@.take(i + 1).map_values(by_target));
        i += 1;
    }
    assert(moved@.take(moved.len() as int) =~= moved@);
    let mut out: Vec<Edge> = Vec::new();
    let mut i: usize = 0;
    let ghost stays = settled(gone);
    proof {
        reveal(Seq::filter);
        assert(landed@.take(0) =~= Seq::empty());
    }
    while i < landed.len()
        invariant
            i <= landed.len(),
            stays == settled(gone),
            out@ == landed@.take(i as int).filter(stays),
        decreases landed.len() - i,
    {
        let e = landed[i];
        proof {
            assert(landed@.take(i + 1) =~= landed@.take(i as int).push(e));
            landed@.take(i as int).lemma_filter_push(e, stays);
        }
        if e.source != e.target && e.source != gone && e.target != gone {
            out.push(e);
        }
        i += 1;
    }
    assert(landed@.take(landed.len() as int) =~= landed@);
    out
}

impl MemoryStore {
    /// The row at `k` absorbs the row at `g`.
    pub(crate) fn absorb(&mut self, k: usize, g: usize, now: i64)
        requires
            old(self).wf(),
            k < old(self).rows.len(),
            g < old(self).rows.len(),
            k != g,
        ensures
            final(self).wf(),
            final(self)@ == old(self)@.absorbed(
                old(self)@.rows[k as int].id,
                old(self)@.rows[g as int].id,
                now,
            ),
    {
        let ghost before = self@;
        let keep: i64 = self.rows[k].id;
        let gone: i64 = self.rows[g].id;
        proof {
            before.lemma_position_of_id(keep, k as int);
            before.lemma_position_of_id(gone, g as int);
            if k < g {
                assert(before.rows[k as int].id < before.rows[g as int].id);
            } else {
                assert(before.rows[g as int].id < before.rows[k as int].id);
            }
            before.lemma_absorbed(keep, gone, now);
        }
        let head = concat(self.rows[k].content.as_str(), "\n\n");
        let content = concat(head.as_str(), self.rows[g].content.as_str());
        let tags = merge_tags(&self.rows[k].tags, &self.rows[g].tags);
        self.rows[k].content = content;
        self.rows[k].tags = tags;
        self.rows[k].updated_at = now;
        self.rows.remove(g);
        self.links = transfer(&self.links, keep, gone);
        assert(self@.rows =~= before.absorbed(keep, gone, now).rows);
    }

    /// Merges `discard` into `keep`. The survivor's content is its own, a
    /// blank line, and the other's; its tags are its own and then the other's
    /// that it lacks; its embedding is `embedding`. The links of `discard`
    /// pass to `keep`, and `discard` leaves the store. The `supersedes` link
    /// that a merge draws from the survivor to the row it absorbs leaves with
    /// that row.
    pub fn merge(&mut self, keep: &str, discard: &str, embedding: &Vec<u8>, now: i64) -> (done:
        Result<(), StoreError>)
        requires
            old(self).wf(),
        ensures
            final(self).wf(),
            done == old(self)@.merge_outcome(keep@, discard@, embedding@),
            done is Ok ==> final(self)@ == old(self)@.merged(keep@, discard@, embedding@, now),
            done is Err ==> final(self)@ == old(self)@,
    {
        let k = self.find(&keep.to_owned());
        let g = self.find(&discard.to_owned());
        let (k, g) = match (k, g) {
            (Some(k), Some(g)) => (k, g),
            _ => {
                return Err(StoreError::NotFound);
            },
        };
        if embedding.len() != EMBED_BYTES {
            return Err(StoreError::BadEmbedding);
        }
        if k == g {
            return Err(StoreError::SameMemory);
        }
        let ghost before = self@;
        let ghost staged = before.reembedded(before.id_of(keep@), embedding@);
        proof {
            assert(before.rows[k as int].mnemonic != before.rows[g as int].mnemonic) by {
                if k < g {
                    assert(before.rows[k as int].mnemonic != before.rows[g as int].mnemonic);
                } else {
                    assert(before.rows[g as int].mnemonic != before.rows[k as int].mnemonic);
                }
            }
            before.lemma_position_of_id(before.rows[k as int].id, k as int);
            assert(before.row_ok(before.rows[k as int]));
            assert forall|j: int|
                0 <= j < before.rows.len() && j != k implies (#[trigger] before.rows[j]).mnemonic
                != before.rows[k as int].mnemonic by {
                if j < k {
                    assert(before.rows[j].mnemonic != before.rows[k as int].mnemonic);
                } else {
                    assert(before.rows[k as int].mnemonic != before.rows[j].mnemonic);
                }
            }
            before.lemma_with_row(
                k as int,
                RowView { embedding: embedding@, ..before.rows[k as int] },
            );
        }
        self.rows[k].embedding = copy_bytes(embedding);
        assert(self@.rows =~= staged.rows);
        self.absorb(k, g, now);
        Ok(())
    }
}

} // verus!
