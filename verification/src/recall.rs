//! Recall: from the answer of the vector index to the ranked memories, and
//! what the store notes of them.

use vstd::prelude::*;
use crate::model::{LinkView, Memory, MemoryView, Neighbor, RowView, memory_views};
use crate::rank::{Ranked, in_rank_order, rank, ranked};
use crate::store::{MemoryStore, StoreView, bumped};
use crate::tags::{any_shared_tag, copy_tags, count_shared, has_tag, shared_tag_count, shares_tag};
use crate::text::{
    chars_of, lemma_text_lt_carries, lemma_text_lt_one_way, string_of, text_before, text_lt, texts,
};

verus! {

/// How many linked neighbours count towards the link boost of a candidate.
pub const LINK_BOOST_CAP: usize = 3;

/// How many rows recall asks the vector index for: three times `limit`, and
/// twelve times where candidates are also chosen by tag, as some will drop
/// out. The number is cut at what the machine can count.
pub open spec fn fetch_span(limit: usize, tagged: bool) -> usize {
    let factor: int = if tagged {
        12
    } else {
        3
    };
    if limit * factor <= usize::MAX {
        (limit * factor) as usize
    } else {
        usize::MAX
    }
}

/// The first `span` entries of the index's answer, or all of them.
pub open spec fn fetched(nearest: Seq<Neighbor>, span: usize) -> Seq<Neighbor> {
    if nearest.len() <= span {
        nearest
    } else {
        nearest.take(span as int)
    }
}

/// How many rows recall asks the vector index for.
pub fn fetch_limit(limit: usize, tagged: bool) -> (span: usize)
    ensures
        span == fetch_span(limit, tagged),
{
    let factor: usize = if tagged {
        12
    } else {
        3
    };
    if limit > usize::MAX / factor {
        usize::MAX
    } else {
        limit * factor
    }
}

/// `query` with every double quote written twice.
pub open spec fn quotes_doubled(query: Seq<char>) -> Seq<char>
    decreases query.len(),
{
    if query.len() == 0 {
        query
    } else if query.last() == '"' {
        quotes_doubled(query.drop_last()).push('"').push('"')
    } else {
        quotes_doubled(query.drop_last()).push(query.last())
    }
}

/// The phrase that the text index is asked for: `query` between double
/// quotes, with each double quote inside it written twice.
pub open spec fn phrase_of(query: Seq<char>) -> Seq<char> {
    seq!['"'] + quotes_doubled(query) + seq!['"']
}

/// The phrase to ask the text index for, or `None` where `query` is empty
/// and nothing is to be asked.
pub fn fts_phrase(query: &str) -> (phrase: Option<String>)
    ensures
        match phrase {
            Some(p) => query@.len() > 0 && p@ == phrase_of(query@),
            None => query@.len() == 0,
        },
{
    let chars = chars_of(query);
    if chars.len() == 0 {
        return None;
    }
    let mut out: Vec<char> = Vec::new();
    out.push('"');
    let mut i: usize = 0;
    assert(chars@.take(0) =~= Seq::empty());
    assert(out@ =~= seq!['"'] + quotes_doubled(chars@.take(0)));
    while i < chars.len()
        invariant
            i <= chars.len(),
            out@ == seq!['"'] + quotes_doubled(chars@.take(i as int)),
        decreases chars.len() - i,
    {
        let c: char = chars[i];
        proof {
            assert(chars@.take(i + 1).drop_last() =~= chars@.take(i as int));
            assert(chars@.take(i + 1).last() == c);
        }
        if c == '"' {
            out.push('"');
            out.push('"');
        } else {
            out.push(c);
        }
        assert(out@ =~= seq!['"'] + quotes_doubled(chars@.take(i + 1)));
        i += 1;
    }
    assert(chars@.take(chars.len() as int) =~= chars@);
    out.push('"');
    assert(out@ =~= phrase_of(query@));
    Some(string_of(&out))
}

/// The tags of an optional tag list.
pub open spec fn wanted(tags: Option<&Vec<String>>) -> Option<Seq<Seq<char>>> {
    match tags {
        Some(t) => Some(texts(t@)),
        None => None,
    }
}

/// The seconds from `earlier` to `later`: none where `later` is not later,
/// and cut at what the machine can count.
pub open spec fn elapsed(earlier: i64, later: i64) -> i64 {
    if later <= earlier {
        0
    } else if later - earlier > i64::MAX {
        i64::MAX
    } else {
        (later - earlier) as i64
    }
}

/// The seconds from `earlier` to `later`.
pub fn seconds_between(earlier: i64, later: i64) -> (seconds: i64)
    ensures
        seconds == elapsed(earlier, later),
{
    if later <= earlier {
        0
    } else if earlier >= 0 {
        later - earlier
    } else if later > i64::MAX + earlier {
        i64::MAX
    } else {
        later - earlier
    }
}

/// The other end of a link of the memory `me`.
pub open spec fn other_end(l: LinkView, me: Seq<char>) -> Seq<char> {
    if l.source_mnemonic == me {
        l.target_mnemonic
    } else {
        l.source_mnemonic
    }
}

/// Whether a candidate is called `m`.
pub open spec fn has_candidate(candidates: Seq<MemoryView>, m: Seq<char>) -> bool {
    exists|i: int| 0 <= i < candidates.len() && (#[trigger] candidates[i]).mnemonic == m
}

/// Whether `i` is where the first candidate called `m` stands.
pub open spec fn is_first_named(candidates: Seq<MemoryView>, m: Seq<char>, i: int) -> bool {
    &&& 0 <= i < candidates.len()
    &&& candidates[i].mnemonic == m
    &&& forall|j: int| 0 <= j < i ==> (#[trigger] candidates[j]).mnemonic != m
}

/// Where the first candidate called `m` stands.
pub open spec fn first_named(candidates: Seq<MemoryView>, m: Seq<char>) -> int {
    choose|i: int| is_first_named(candidates, m, i)
}

/// The candidates that boost the memory `me` through its links: for each
/// link in turn, the candidate at its other end, if there is one, until
/// `LINK_BOOST_CAP` are found. Each is given by its place among the candidates.
pub open spec fn boosters(candidates: Seq<MemoryView>, me: Seq<char>, links: Seq<LinkView>) -> Seq<
    usize,
>
    decreases links.len(),
{
    if links.len() == 0 {
        Seq::empty()
    } else {
        let found = boosters(candidates, me, links.drop_last());
        let other = other_end(links.last(), me);
        if found.len() < LINK_BOOST_CAP && has_candidate(candidates, other) {
            found.push(first_named(candidates, other) as usize)
        } else {
            found
        }
    }
}

/// What the score of a candidate is made from, besides the fields of the
/// candidate itself.
#[derive(Debug)]
pub struct ScoreSignals {
    /// The candidates linked to this one that boost it, by their places.
    pub linked: Vec<usize>,
    /// The seconds since the memory was last recalled, if it ever was.
    pub seconds_since_recall: Option<i64>,
    /// How many tags of the memory are tags that recall favours.
    pub tag_matches: usize,
    /// How many tags recall favours.
    pub boost_tag_count: usize,
    /// Whether the text index matched the memory.
    pub fts_match: bool,
}

/// The mathematical value of `ScoreSignals`.
pub ghost struct SignalsView {
    pub linked: Seq<usize>,
    pub seconds_since_recall: Option<i64>,
    pub tag_matches: usize,
    pub boost_tag_count: usize,
    pub fts_match: bool,
}

impl View for ScoreSignals {
    type V = SignalsView;

    open spec fn view(&self) -> SignalsView {
        SignalsView {
            linked: self.linked@,
            seconds_since_recall: self.seconds_since_recall,
            tag_matches: self.tag_matches,
            boost_tag_count: self.boost_tag_count,
            fts_match: self.fts_match,
        }
    }
}

/// The time of the last recall after a recall at `now`: `now`, or the time
/// that is stored where that is later, so that the time never goes back.
pub open spec fn later_of(stored: Option<i64>, now: i64) -> i64 {
    match stored {
        Some(t) => if t > now {
            t
        } else {
            now
        },
        None => now,
    }
}

/// A row after it was recalled at `now`: recalled once more, and last at
/// `now` unless it holds a later time.
pub open spec fn touched(r: RowView, now: i64) -> RowView {
    RowView {
        recall_count: bumped(r.recall_count),
        last_recalled_at: Some(later_of(r.last_recalled_at, now)),
        ..r
    }
}

/// The mnemonics of a sequence of memories.
pub open spec fn names_of(memories: Seq<Memory>) -> Seq<Seq<char>> {
    memories.map_values(|m: Memory| m.mnemonic@)
}

impl StoreView {
    /// The predicate "is a row of the store that the tag rules let through":
    /// with `require`, only a row that has one of its tags; with `exclude`,
    /// no row that has one of its tags.
    pub open spec fn eligible(
        self,
        require: Option<Seq<Seq<char>>>,
        exclude: Option<Seq<Seq<char>>>,
    ) -> spec_fn(Neighbor) -> bool {
        |n: Neighbor|
            {
                &&& self.has_id(n.memory_id)
                &&& require is Some ==> shares_tag(self.row_of_id(n.memory_id).tags, require->0)
                &&& exclude is Some ==> !shares_tag(self.row_of_id(n.memory_id).tags, exclude->0)
            }
    }

    /// The candidate that a neighbour stands for: its row as it is now, at
    /// the neighbour's distance, not yet scored, with its links.
    pub open spec fn candidate(self, n: Neighbor) -> MemoryView {
        let r = self.row_of_id(n.memory_id);
        MemoryView {
            mnemonic: r.mnemonic,
            content: r.content,
            tags: r.tags,
            distance: n.distance,
            score: 0,
            created_at: r.created_at,
            updated_at: r.updated_at,
            recall_count: r.recall_count,
            last_recalled_at: r.last_recalled_at,
            useful_count: r.useful_count,
            not_useful_count: r.not_useful_count,
            links: self.links_of_id(n.memory_id),
        }
    }

    /// The function that makes a candidate of a neighbour.
    pub open spec fn candidate_maker(self) -> spec_fn(Neighbor) -> MemoryView {
        |n: Neighbor| self.candidate(n)
    }

    /// The candidates of a recall, nearest first.
    pub open spec fn candidates(
        self,
        nearest: Seq<Neighbor>,
        limit: usize,
        require: Option<Seq<Seq<char>>>,
        exclude: Option<Seq<Seq<char>>>,
    ) -> Seq<MemoryView> {
        fetched(nearest, fetch_span(limit, require is Some)).filter(
            self.eligible(require, exclude),
        ).map_values(self.candidate_maker())
    }

    /// The signals of the candidate at `i`.
    pub open spec fn signals(
        self,
        candidates: Seq<MemoryView>,
        i: int,
        matches: Seq<Seq<char>>,
        now: i64,
    ) -> SignalsView {
        let c = candidates[i];
        SignalsView {
            linked: boosters(candidates, c.mnemonic, c.links),
            seconds_since_recall: match c.last_recalled_at {
                Some(t) => Some(elapsed(t, now)),
                None => None,
            },
            tag_matches: count_shared(c.tags, self.boost_tags) as usize,
            boost_tag_count: self.boost_tags.len() as usize,
            fts_match: matches.contains(c.mnemonic),
        }
    }

    /// The function that notes a recall at `now` on the rows called as in `names`.
    pub open spec fn toucher(names: Seq<Seq<char>>, now: i64) -> spec_fn(RowView) -> RowView {
        |r: RowView|
            if names.contains(r.mnemonic) {
                touched(r, now)
            } else {
                r
            }
    }

    /// The store after the memories called as in `names` were recalled at
    /// `now`: each of them that the store holds has been recalled once more,
    /// and last at `now`, or at the later time that it held.
    pub open spec fn recalled(self, names: Seq<Seq<char>>, now: i64) -> StoreView {
        StoreView { rows: self.rows.map_values(Self::toucher(names, now)), ..self }
    }

    /// Noting a recall keeps the store well formed.
    pub proof fn lemma_recalled(self, names: Seq<Seq<char>>, now: i64)
        requires
            self.wf(),
        ensures
            self.recalled(names, now).wf(),
    {
        let after = self.recalled(names, now);
        assert forall|j: int| 0 <= j < after.rows.len() implies after.row_ok(
            #[trigger] after.rows[j],
        ) by {
            assert(self.row_ok(self.rows[j]));
        }
        assert forall|a: int, b: int| 0 <= a < b < after.rows.len() implies {
            &&& (#[trigger] after.rows[a]).id < (#[trigger] after.rows[b]).id
            &&& after.rows[a].mnemonic != after.rows[b].mnemonic
            &&& after.rows[a].uuid != after.rows[b].uuid
        } by {
            assert(self.rows[a].id < self.rows[b].id);
            assert(self.rows[a].mnemonic != self.rows[b].mnemonic);
            assert(self.rows[a].uuid != self.rows[b].uuid);
        }
        assert forall|j: int| 0 <= j < after.edges.len() implies after.edge_ok(
            #[trigger] after.edges[j],
        ) by {
            let e = self.edges[j];
            assert(self.edge_ok(e));
            let s = self.position_of_id(e.source);
            let t = self.position_of_id(e.target);
            assert(after.rows[s].id == e.source);
            assert(after.rows[t].id == e.target);
        }
    }
}

impl Ranked for Memory {
    /// A memory goes before another with a lower score; of two with the same
    /// score, the nearer goes first; of two at the same distance, the one
    /// whose mnemonic comes first.
    open spec fn ahead(&self, other: &Self) -> bool {
        ||| self.score > other.score
        ||| self.score == other.score && self.distance < other.distance
        ||| self.score == other.score && self.distance == other.distance && text_lt(
            self.mnemonic@,
            other.mnemonic@,
        )
    }

    fn is_ahead(&self, other: &Self) -> (first: bool) {
        if self.score != other.score {
            self.score > other.score
        } else if self.distance != other.distance {
            self.distance < other.distance
        } else {
            text_before(self.mnemonic.as_str(), other.mnemonic.as_str())
        }
    }

    proof fn lemma_one_way(a: &Self, b: &Self) {
        lemma_text_lt_one_way(a.mnemonic@, b.mnemonic@);
    }

    proof fn lemma_carries(a: &Self, b: &Self, c: &Self) {
        lemma_text_lt_carries(a.mnemonic@, b.mnemonic@, c.mnemonic@);
    }
}

/// Where the first candidate called `m` stands, if there is one.
fn find_candidate(candidates: &Vec<Memory>, m: &String) -> (at: Option<usize>)
    ensures
        match at {
            Some(i) => has_candidate(memory_views(candidates@), m@) && first_named(
                memory_views(candidates@),
                m@,
            ) == i && i < candidates.len(),
            None => !has_candidate(memory_views(candidates@), m@),
        },
{
    let ghost views = memory_views(candidates@);
    let mut i: usize = 0;
    while i < candidates.len()
        invariant
            i <= candidates.len(),
            views == memory_views(candidates@),
            forall|j: int| 0 <= j < i ==> (#[trigger] views[j]).mnemonic != m@,
        decreases candidates.len() - i,
    {
        if candidates[i].mnemonic == *m {
            proof {
                assert(views[i as int].mnemonic == m@);
                assert(is_first_named(views, m@, i as int));
                let c = first_named(views, m@);
                assert(is_first_named(views, m@, c));
                if c < i {
                    assert(views[c].mnemonic != m@);
                }
                if i < c {
                    assert(views[i as int].mnemonic != m@);
                }
            }
            return Some(i);
        }
        i += 1;
    }
    None
}

impl MemoryStore {
    /// The candidate that a neighbour stands for.
    fn candidate(&self, n: Neighbor, at: usize) -> (memory: Memory)
        requires
            self.wf(),
            at < self.rows.len(),
            self@.rows[at as int].id == n.memory_id,
        ensures
            memory@ == self@.candidate(n),
    {
        proof {
            self@.lemma_position_of_id(n.memory_id, at as int);
        }
        let r = &self.rows[at];
        Memory {
            mnemonic: r.mnemonic.clone(),
            content: r.content.clone(),
            tags: copy_tags(&r.tags),
            distance: n.distance,
            score: 0,
            created_at: r.created_at,
            updated_at: r.updated_at,
            recall_count: r.recall_count,
            last_recalled_at: r.last_recalled_at,
            useful_count: r.useful_count,
            not_useful_count: r.not_useful_count,
            links: self.links_of_id(n.memory_id),
        }
    }

    /// The candidates of a recall: the rows that the vector index answered
    /// with, nearest first, as far as the tag rules let them through. With
    /// `tags`, a row must have one of them; with `exclude_tags`, it must have
    /// none of them. Only the first `fetch_limit(limit, tags.is_some())`
    /// entries of `nearest` are read, and entries that name no row are passed
    /// over. Each candidate carries its links and a score of zero.
    pub fn recall_candidates(
        &self,
        nearest: &Vec<Neighbor>,
        limit: usize,
        tags: Option<&Vec<String>>,
        exclude_tags: Option<&Vec<String>>,
    ) -> (found: Vec<Memory>)
        requires
            self.wf(),
        ensures
            memory_views(found@) == self@.candidates(
                nearest@,
                limit,
                wanted(tags),
                wanted(exclude_tags),
            ),
    {
        let span = fetch_limit(limit, tags.is_some());
        let n: usize = if nearest.len() <= span {
            nearest.len()
        } else {
            span
        };
        let ghost all = fetched(nearest@, span);
        let ghost passes = self@.eligible(wanted(tags), wanted(exclude_tags));
        let ghost make = self@.candidate_maker();
        let mut out: Vec<Memory> = Vec::new();
        let mut i: usize = 0;
        proof {
            reveal(Seq::filter);
            assert(all.take(0) =~= Seq::empty());
            assert(memory_views(out@) =~= all.take(0).filter(passes).map_values(make));
        }
        while i < n
            invariant
                i <= n,
                n == all.len(),
                n <= nearest.len(),
                self.wf(),
                all == fetched(nearest@, span),
                passes == self@.eligible(wanted(tags), wanted(exclude_tags)),
                make == self@.candidate_maker(),
                memory_views(out@) == all.take(i as int).filter(passes).map_values(make),
            decreases n - i,
        {
            let x = nearest[i];
            proof {
                assert(all[i as int] == x);
                assert(all.take(i + 1) =~= all.take(i as int).push(x));
                all.take(i as int).lemma_filter_push(x, passes);
            }
            match self.find_id(x.memory_id) {
                Some(at) => {
                    assert(self@.rows[at as int].tags == texts(self.rows@[at as int].tags@));
                    let included = match tags {
                        Some(t) => any_shared_tag(&self.rows[at].tags, t),
                        None => true,
                    };
                    let excluded = match exclude_tags {
                        Some(t) => any_shared_tag(&self.rows[at].tags, t),
                        None => false,
                    };
                    if included && !excluded {
                        let ghost before = memory_views(out@);
                        let memory = self.candidate(x, at);
                        out.push(memory);
                        assert(memory_views(out@) =~= before.push(make(x)));
                        assert(all.take(i as int).filter(passes).push(x).map_values(make)
                            =~= before.push(make(x)));
                    }
                },
                None => {},
            }
            i += 1;
        }
        assert(all.take(n as int) =~= all);
        out
    }

    /// The memory called `mnemonic` with its links, if the store holds it.
    /// Distance and score are zero.
    pub fn get_memory_by_mnemonic(&self, mnemonic: &str) -> (memory: Option<Memory>)
        requires
            self.wf(),
        ensures
            match memory {
                Some(m) => self@.has_mnemonic(mnemonic@) && m@ == self@.candidate(
                    Neighbor { memory_id: self@.id_of(mnemonic@), distance: 0 },
                ),
                None => !self@.has_mnemonic(mnemonic@),
            },
    {
        match self.find(&mnemonic.to_owned()) {
            Some(at) => {
                let id: i64 = self.rows[at].id;
                assert(self@.rows[at as int].id == id);
                Some(self.candidate(Neighbor { memory_id: id, distance: 0 }, at))
            },
            None => None,
        }
    }

    /// The candidates linked to the candidate at `i` that boost it.
    fn linked_candidates(candidates: &Vec<Memory>, i: usize) -> (linked: Vec<usize>)
        requires
            i < candidates.len(),
        ensures
            linked@ == boosters(
                memory_views(candidates@),
                candidates@[i as int]@.mnemonic,
                candidates@[i as int]@.links,
            ),
    {
        let me = &candidates[i];
        let ghost views = memory_views(candidates@);
        let ghost links = me@.links;
        let mut out: Vec<usize> = Vec::new();
        let mut k: usize = 0;
        assert(links.take(0) =~= Seq::empty());
        while k < me.links.len()
            invariant
                k <= me.links.len(),
                i < candidates.len(),
                me == &candidates@[i as int],
                views == memory_views(candidates@),
                links == me@.links,
                links.len() == me.links.len(),
                out@ == boosters(views, me@.mnemonic, links.take(k as int)),
            decreases me.links.len() - k,
        {
            let l = &me.links[k];
            proof {
                assert(links.take(k + 1).drop_last() =~= links.take(k as int));
                assert(links.take(k + 1).last() == l@);
            }
            if out.len() < LINK_BOOST_CAP {
                let other = if l.source_mnemonic == me.mnemonic {
                    &l.target_mnemonic
                } else {
                    &l.source_mnemonic
                };
                match find_candidate(candidates, other) {
                    Some(at) => {
                        out.push(at);
                    },
                    None => {},
                }
            }
            k += 1;
        }
        assert(links.take(me.links.len() as int) =~= links);
        out
    }

    /// The signals from which the candidates are scored, one for each
    /// candidate and in their order. `fts_matches` holds the mnemonics that
    /// the text index matched.
    pub fn score_signals(&self, candidates: &Vec<Memory>, fts_matches: &Vec<String>, now: i64) -> (
        signals: Vec<ScoreSignals>
    )
        ensures
            signals.len() == candidates.len(),
            forall|i: int|
                0 <= i < candidates.len() ==> (#[trigger] signals@[i])@ == self@.signals(
                    memory_views(candidates@),
                    i,
                    texts(fts_matches@),
                    now,
                ),
    {
        let ghost views = memory_views(candidates@);
        let mut out: Vec<ScoreSignals> = Vec::new();
        let mut i: usize = 0;
        while i < candidates.len()
            invariant
                i <= candidates.len(),
                out.len() == i,
                views == memory_views(candidates@),
                forall|j: int|
                    0 <= j < i ==> (#[trigger] out@[j])@ == self@.signals(
                        views,
                        j,
                        texts(fts_matches@),
                        now,
                    ),
            decreases candidates.len() - i,
        {
            let c = &candidates[i];
            assert(views[i as int] == c@);
            let seconds_since_recall = match c.last_recalled_at {
                Some(t) => Some(seconds_between(t, now)),
                None => None,
            };
            let signal = ScoreSignals {
                linked: Self::linked_candidates(candidates, i),
                seconds_since_recall,
                tag_matches: shared_tag_count(&c.tags, &self.boost_tags),
                boost_tag_count: self.boost_tags.len(),
                fts_match: has_tag(fts_matches, c.mnemonic.as_str()),
            };
            assert(signal@ == self@.signals(views, i as int, texts(fts_matches@), now));
            out.push(signal);
            i += 1;
        }
        out
    }

    /// Ends a recall: ranks the scored candidates, keeps the first `limit`,
    /// and notes on each of their rows that it was recalled at `now`; a row
    /// that holds a later time of recall keeps that time. The
    /// memories handed back are the candidates as they were given: their
    /// counters are those from before this recall.
    pub fn recall(&mut self, scored: Vec<Memory>, limit: usize, now: i64) -> (found: Vec<Memory>)
        requires
            old(self).wf(),
        ensures
            final(self).wf(),
            found@ == (if scored@.len() <= limit {
                ranked(scored@)
            } else {
                ranked(scored@).take(limit as int)
            }),
            in_rank_order(found@),
            found@.len() == (if scored@.len() <= limit {
                scored@.len()
            } else {
                limit as nat
            }),
            final(self)@ == old(self)@.recalled(names_of(found@), now),
    {
        let mut sorted = rank(scored);
        if sorted.len() > limit {
            sorted.truncate(limit);
        }
        let ghost before = self@;
        let ghost names = names_of(sorted@);
        let ghost touch = StoreView::toucher(names, now);
        let mut i: usize = 0;
        proof {
            before.lemma_recalled(names, now);
        }
        while i < self.rows.len()
            invariant
                i <= self.rows.len(),
                self.rows.len() == before.rows.len(),
                names == names_of(sorted@),
                touch == StoreView::toucher(names, now),
                self@.edges == before.edges,
                self@.next_id == before.next_id,
                self@.boost_tags == before.boost_tags,
                forall|j: int| 0 <= j < i ==> (#[trigger] self@.rows[j]) == touch(before.rows[j]),
                forall|j: int|
                    i <= j < before.rows.len() ==> (#[trigger] self@.rows[j]) == before.rows[j],
            decreases self.rows.len() - i,
        {
            let ghost here = self@;
            assert(here.rows[i as int] == before.rows[i as int]);
            if names_hold(&sorted, &self.rows[i].mnemonic) {
                let count: i64 = self.rows[i].recall_count;
                if count < i64::MAX {
                    self.rows[i].recall_count = count + 1;
                }
                let at: i64 = match self.rows[i].last_recalled_at {
                    Some(t) => if t > now {
                        t
                    } else {
                        now
                    },
                    None => now,
                };
                self.rows[i].last_recalled_at = Some(at);
                assert(self@.rows =~= here.rows.update(i as int, touch(before.rows[i as int])));
            }
            i += 1;
        }
        assert(self@.rows =~= before.recalled(names, now).rows);
        sorted
    }
}

/// Whether one of `memories` is called `m`.
fn names_hold(memories: &Vec<Memory>, m: &String) -> (found: bool)
    ensures
        found == names_of(memories@).contains(m@),
{
    let mut i: usize = 0;
    while i < memories.len()
        invariant
            i <= memories.len(),
            forall|j: int| 0 <= j < i ==> (#[trigger] names_of(memories@)[j]) != m@,
        decreases memories.len() - i,
    {
        if memories[i].mnemonic == *m {
            assert(names_of(memories@)[i as int] == m@);
            return true;
        }
        i += 1;
    }
    false
}

} // verus!
