//! Lists over the whole store, and the search for memories to merge.

use vstd::prelude::*;
use crate::admission::heard;
use crate::model::{
    MemorySummary, MergeCandidate, MergeCandidateView, Neighbor, RowView, SummaryView,
    merge_candidate_views, summary_views, AUTO_LINK_MAX_NEIGHBORS,
};
use crate::rank::{Ranked, rank, ranked};
use crate::recall::fetched;
use crate::store::{MemoryStore, StoreView};
use crate::tags::{copy_tags, has_tag};
use crate::text::texts;

verus! {

/// What the list of all memories is ordered by, for the row that stands at `at`.
#[derive(Clone, Copy, Debug)]
pub struct SummaryKey {
    pub recall_count: i64,
    pub updated_at: i64,
    pub id: i64,
    pub at: usize,
}

impl Ranked for SummaryKey {
    /// The memory recalled more often goes first; of two recalled as often,
    /// the one changed later; of two changed at the same time, the older row.
    open spec fn ahead(&self, other: &Self) -> bool {
        ||| self.recall_count > other.recall_count
        ||| self.recall_count == other.recall_count && self.updated_at > other.updated_at
        ||| self.recall_count == other.recall_count && self.updated_at == other.updated_at
            && self.id < other.id
    }

    fn is_ahead(&self, other: &Self) -> (first: bool) {
        if self.recall_count != other.recall_count {
            self.recall_count > other.recall_count
        } else if self.updated_at != other.updated_at {
            self.updated_at > other.updated_at
        } else {
            self.id < other.id
        }
    }

    proof fn lemma_one_way(a: &Self, b: &Self) {
    }

    proof fn lemma_carries(a: &Self, b: &Self, c: &Self) {
    }
}

/// How many rows the search for merge candidates asks the vector index for:
/// as many as are wanted, one for each memory left out, and one more. The
/// number is cut at what the machine can count.
pub open spec fn merge_fetch_span(limit: usize, excluded: usize) -> usize {
    if limit + excluded + 1 <= usize::MAX {
        (limit + excluded + 1) as usize
    } else {
        usize::MAX
    }
}

/// How many rows the search for merge candidates asks the vector index for.
pub fn merge_fetch_limit(limit: usize, excluded: usize) -> (span: usize)
    ensures
        span == merge_fetch_span(limit, excluded),
{
    if limit >= usize::MAX - excluded {
        usize::MAX
    } else {
        limit + excluded + 1
    }
}

/// The summary of a row.
pub open spec fn summary_of(r: RowView) -> SummaryView {
    SummaryView {
        mnemonic: r.mnemonic,
        content: r.content,
        tags: r.tags,
        recall_count: r.recall_count,
        useful_count: r.useful_count,
        not_useful_count: r.not_useful_count,
    }
}

impl StoreView {
    /// The key of the row at `i`.
    pub open spec fn summary_key(self, i: int) -> SummaryKey {
        SummaryKey {
            recall_count: self.rows[i].recall_count,
            updated_at: self.rows[i].updated_at,
            id: self.rows[i].id,
            at: i as usize,
        }
    }

    /// The keys of all rows, in the order of the rows.
    pub open spec fn summary_keys(self) -> Seq<SummaryKey> {
        Seq::new(self.rows.len(), |i: int| self.summary_key(i))
    }

    /// The function from a key to the summary of its row.
    pub open spec fn summarizer(self) -> spec_fn(SummaryKey) -> SummaryView {
        |k: SummaryKey| summary_of(self.rows[k.at as int])
    }

    /// All memories: the most recalled first; of two recalled as often, the
    /// one changed later first.
    pub open spec fn summaries(self) -> Seq<SummaryView> {
        ranked(self.summary_keys()).map_values(self.summarizer())
    }

    /// The predicate "is a row of the store, not called `exclude`, closer
    /// than `threshold`".
    pub open spec fn nearer_than(self, threshold: u64, exclude: Seq<char>) -> spec_fn(
        Neighbor,
    ) -> bool {
        |n: Neighbor|
            self.has_id(n.memory_id) && self.row_of_id(n.memory_id).mnemonic != exclude
                && n.distance < threshold
    }

    /// The function from a neighbour to its mnemonic and distance.
    pub open spec fn namer(self) -> spec_fn(Neighbor) -> (Seq<char>, u64) {
        |n: Neighbor| (self.row_of_id(n.memory_id).mnemonic, n.distance)
    }

    /// The memories nearer than `threshold`, but for the one called
    /// `exclude`, nearest first.
    pub open spec fn nearest_to(self, nearest: Seq<Neighbor>, threshold: u64, exclude: Seq<char>) -> Seq<
        (Seq<char>, u64),
    > {
        heard(nearest).filter(self.nearer_than(threshold, exclude)).map_values(self.namer())
    }

    /// The predicate "is a row of the store, called as none of `exclude`,
    /// closer than `threshold`".
    pub open spec fn mergeable(self, threshold: u64, exclude: Seq<Seq<char>>) -> spec_fn(
        Neighbor,
    ) -> bool {
        |n: Neighbor|
            self.has_id(n.memory_id) && !exclude.contains(self.row_of_id(n.memory_id).mnemonic)
                && n.distance < threshold
    }

    /// A neighbour as a merge candidate.
    pub open spec fn merge_candidate(self, n: Neighbor) -> MergeCandidateView {
        let r = self.row_of_id(n.memory_id);
        MergeCandidateView {
            mnemonic: r.mnemonic,
            content: r.content,
            tags: r.tags,
            distance: n.distance,
            recall_count: r.recall_count,
        }
    }

    /// The function from a neighbour to a merge candidate.
    pub open spec fn merge_candidate_maker(self) -> spec_fn(Neighbor) -> MergeCandidateView {
        |n: Neighbor| self.merge_candidate(n)
    }

    /// Every neighbour that can be merged, nearest first.
    pub open spec fn all_mergeable(
        self,
        nearest: Seq<Neighbor>,
        threshold: u64,
        exclude: Seq<Seq<char>>,
        limit: usize,
    ) -> Seq<Neighbor> {
        fetched(nearest, merge_fetch_span(limit, exclude.len() as usize)).filter(
            self.mergeable(threshold, exclude),
        )
    }

    /// The first `limit` merge candidates, nearest first.
    pub open spec fn merge_candidates(
        self,
        nearest: Seq<Neighbor>,
        threshold: u64,
        exclude: Seq<Seq<char>>,
        limit: usize,
    ) -> Seq<MergeCandidateView> {
        let all = self.all_mergeable(nearest, threshold, exclude, limit);
        (if all.len() <= limit {
            all
        } else {
            all.take(limit as int)
        }).map_values(self.merge_candidate_maker())
    }
}

impl MemoryStore {
    /// All memories, the most recalled first; of two recalled as often, the
    /// one changed later first; of two changed at the same time, the older.
    pub fn list_all_summaries(&self) -> (all: Vec<MemorySummary>)
        requires
            self.wf(),
        ensures
            summary_views(all@) == self@.summaries(),
    {
        let ghost keys_spec = self@.summary_keys();
        let mut keys: Vec<SummaryKey> = Vec::new();
        let mut i: usize = 0;
        while i < self.rows.len()
            invariant
                i <= self.rows.len(),
                keys_spec == self@.summary_keys(),
                keys@ == keys_spec.take(i as int),
            decreases self.rows.len() - i,
        {
            let r = &self.rows[i];
            keys.push(
                SummaryKey {
                    recall_count: r.recall_count,
                    updated_at: r.updated_at,
                    id: r.id,
                    at: i,
                },
            );
            assert(keys@ =~= keys_spec.take(i + 1));
            i += 1;
        }
        assert(keys_spec.take(self.rows.len() as int) =~= keys_spec);
        assert(keys@ == keys_spec);
        let sorted = rank(keys);
        let ghost show = self@.summarizer();
        let mut out: Vec<MemorySummary> = Vec::new();
        let mut j: usize = 0;
        proof {
            broadcast use vstd::seq_lib::group_to_multiset_ensures;

            assert forall|k: int| 0 <= k < sorted@.len() implies (#[trigger] sorted@[k]).at
                < self.rows.len() by {
                sorted@.to_multiset_ensures();
                keys_spec.to_multiset_ensures();
                assert(sorted@.contains(sorted@[k]));
                assert(sorted@.to_multiset().count(sorted@[k]) > 0);
                assert(keys_spec.to_multiset().count(sorted@[k]) > 0);
                assert(keys_spec.contains(sorted@[k]));
                let o = choose|o: int| 0 <= o < keys_spec.len() && keys_spec[o] == sorted@[k];
                assert(keys_spec[o].at == o);
            }
            assert(summary_views(out@) =~= sorted@.take(0).map_values(show));
        }
        while j < sorted.len()
            invariant
                j <= sorted.len(),
                show == self@.summarizer(),
                forall|k: int| 0 <= k < sorted@.len() ==> (#[trigger] sorted@[k]).at < self.rows.len(),
                summary_views(out@) == sorted@.take(j as int).map_values(show),
            decreases sorted.len() - j,
        {
            let key = sorted[j];
            let r = &self.rows[key.at];
            let ghost before = summary_views(out@);
            let summary = MemorySummary {
                mnemonic: r.mnemonic.clone(),
                content: r.content.clone(),
                tags: copy_tags(&r.tags),
                recall_count: r.recall_count,
                useful_count: r.useful_count,
                not_useful_count: r.not_useful_count,
            };
            assert(summary@ == show(key));
            out.push(summary);
            assert(summary_views(out@) =~= before.push(show(key)));
            assert(sorted@.take(j + 1).map_values(show) =~= before.push(show(key)));
            j += 1;
        }
        assert(sorted@.take(sorted.len() as int) =~= sorted@);
        out
    }

    /// The memories nearer than `threshold`, but for the one called
    /// `exclude_mnemonic`, each with its distance, nearest first. `nearest`
    /// is the answer of the vector index; as in a write, only its first
    /// entries are read.
    pub fn find_nearest(&self, nearest: &Vec<Neighbor>, threshold: u64, exclude_mnemonic: &str) -> (
        found: Vec<(String, u64)>
    )
        requires
            self.wf(),
        ensures
            found@.len() == self@.nearest_to(nearest@, threshold, exclude_mnemonic@).len(),
            forall|i: int|
                0 <= i < found@.len() ==> ((#[trigger] found@[i]).0@, found@[i].1)
                    == self@.nearest_to(nearest@, threshold, exclude_mnemonic@)[i],
    {
        let key = exclude_mnemonic.to_owned();
        let ghost all = heard(nearest@);
        let ghost passes = self@.nearer_than(threshold, exclude_mnemonic@);
        let ghost name = self@.namer();
        let n: usize = if nearest.len() <= AUTO_LINK_MAX_NEIGHBORS + 1 {
            nearest.len()
        } else {
            AUTO_LINK_MAX_NEIGHBORS + 1
        };
        let mut out: Vec<(String, u64)> = Vec::new();
        let mut i: usize = 0;
        proof {
            reveal(Seq::filter);
            assert(all.take(0) =~= Seq::empty());
        }
        while i < n
            invariant
                i <= n,
                n == all.len(),
                n <= nearest.len(),
                self.wf(),
                key@ == exclude_mnemonic@,
                all == heard(nearest@),
                passes == self@.nearer_than(threshold, exclude_mnemonic@),
                name == self@.namer(),
                out@.len() == all.take(i as int).filter(passes).len(),
                forall|k: int|
                    0 <= k < out@.len() ==> ((#[trigger] out@[k]).0@, out@[k].1) == name(
                        all.take(i as int).filter(passes)[k],
                    ),
            decreases n - i,
        {
            let x = nearest[i];
            proof {
                assert(all[i as int] == x);
                assert(all.take(i + 1) =~= all.take(i as int).push(x));
                all.take(i as int).lemma_filter_push(x, passes);
            }
            match self.find_id(x.memory_id) {
                Some(at) => {
                    assert(self@.rows[at as int].mnemonic == self.rows@[at as int].mnemonic@);
                    if self.rows[at].mnemonic != key && x.distance < threshold {
                        out.push((self.rows[at].mnemonic.clone(), x.distance));
                    }
                },
                None => {},
            }
            i += 1;
        }
        assert(all.take(n as int) =~= all);
        out
    }

    /// The memories that could be merged into another: those nearer than
    /// `threshold` that are called as none of `exclude`, nearest first, and
    /// not more than `limit`. `nearest` is the answer of the vector index, of
    /// which the first `merge_fetch_limit(limit, exclude.len())` entries are read.
    pub fn find_merge_candidates(
        &self,
        nearest: &Vec<Neighbor>,
        threshold: u64,
        exclude: &Vec<String>,
        limit: usize,
    ) -> (found: Vec<MergeCandidate>)
        requires
            self.wf(),
        ensures
            merge_candidate_views(found@) == self@.merge_candidates(
                nearest@,
                threshold,
                texts(exclude@),
                limit,
            ),
    {
        let span = merge_fetch_limit(limit, exclude.len());
        let n: usize = if nearest.len() <= span {
            nearest.len()
        } else {
            span
        };
        let ghost all = fetched(nearest@, span);
        let ghost passes = self@.mergeable(threshold, texts(exclude@));
        let ghost make = self@.merge_candidate_maker();
        let mut out: Vec<MergeCandidate> = Vec::new();
        let mut i: usize = 0;
        proof {
            reveal(Seq::filter);
            assert(all.take(0) =~= Seq::empty());
            assert(merge_candidate_views(out@) =~= all.take(0).filter(passes).map_values(make));
        }
        while i < n && out.len() < limit
            invariant
                i <= n,
                n == all.len(),
                n <= nearest.len(),
                self.wf(),
                all == fetched(nearest@, span),
                passes == self@.mergeable(threshold, texts(exclude@)),
                make == self@.merge_candidate_maker(),
                out.len() <= limit,
                merge_candidate_views(out@) == all.take(i as int).filter(passes).map_values(make),
            decreases n - i,
        {
            let x = nearest[i];
            proof {
                assert(all[i as int] == x);
                assert(all.take(i + 1) =~= all.take(i as int).push(x));
                all.take(i as int).lemma_filter_push(x, passes);
            }
            match self.find_id(x.memory_id) {
                Some(at) => {
                    let r = &self.rows[at];
                    assert(self@.rows[at as int].mnemonic == r.mnemonic@);
                    if !has_tag(exclude, r.mnemonic.as_str()) && x.distance < threshold {
                        let ghost before = merge_candidate_views(out@);
                        let c = MergeCandidate {
                            mnemonic: r.mnemonic.clone(),
                            content: r.content.clone(),
                            tags: copy_tags(&r.tags),
                            distance: x.distance,
                            recall_count: r.recall_count,
                        };
                        assert(c@ == make(x));
                        out.push(c);
                        assert(merge_candidate_views(out@) =~= before.push(make(x)));
                        assert(all.take(i as int).filter(passes).push(x).map_values(make)
                            =~= before.push(make(x)));
                    }
                },
                None => {},
            }
            i += 1;
        }
        proof {
            let kept = all.take(i as int).filter(passes);
            let full = all.filter(passes);
            assert(all =~= all.take(i as int) + all.skip(i as int));
            Seq::filter_distributes_over_add(all.take(i as int), all.skip(i as int), passes);
            assert(full == kept + all.skip(i as int).filter(passes));
            if i < n {
                assert(kept.len() == limit);
                assert(full.take(limit as int) =~= kept);
            } else {
                assert(all.take(n as int) =~= all);
                assert(kept == full);
                if full.len() > limit {
                    assert(false);
                }
            }
            assert(full.len() <= limit ==> full =~= kept) by {
                if full.len() <= limit && i < n {
                    assert(full.take(limit as int) =~= full);
                }
            }
        }
        out
    }
}

} // verus!
