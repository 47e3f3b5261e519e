//! The tags of the store and how often each occurs.

use vstd::prelude::*;
use crate::model::{RowView, TagCount};
use crate::rank::{Ranked, in_rank_order, lemma_same_entries, rank};
use crate::store::MemoryStore;
use crate::text::{lemma_text_lt_carries, lemma_text_lt_one_way, text_before, text_lt, texts};

verus! {

impl Ranked for TagCount {
    /// The tag that occurs more often goes first; of two that occur as
    /// often, the one that comes first in the order of their characters.
    open spec fn ahead(&self, other: &Self) -> bool {
        ||| self.count > other.count
        ||| self.count == other.count && text_lt(self.tag@, other.tag@)
    }

    fn is_ahead(&self, other: &Self) -> (first: bool) {
        if self.count != other.count {
            self.count > other.count
        } else {
            text_before(self.tag.as_str(), other.tag.as_str())
        }
    }

    proof fn lemma_one_way(a: &Self, b: &Self) {
        lemma_text_lt_one_way(a.tag@, b.tag@);
    }

    proof fn lemma_carries(a: &Self, b: &Self, c: &Self) {
        lemma_text_lt_carries(a.tag@, b.tag@, c.tag@);
    }
}

/// The predicate "is the tag `tag`".
pub open spec fn is_tag(tag: Seq<char>) -> spec_fn(Seq<char>) -> bool {
    |t: Seq<char>| t == tag
}

/// The tags of all rows, one row after the other.
pub open spec fn all_tags(rows: Seq<RowView>) -> Seq<Seq<char>>
    decreases rows.len(),
{
    if rows.len() == 0 {
        Seq::empty()
    } else {
        all_tags(rows.drop_last()) + rows.last().tags
    }
}

/// How often `tag` occurs in `tags`.
pub open spec fn uses_in(tags: Seq<Seq<char>>, tag: Seq<char>) -> nat {
    tags.filter(is_tag(tag)).len()
}

/// A number of uses as a count: itself, cut at what the machine can count.
pub open spec fn capped(uses: nat) -> i64 {
    if uses <= i64::MAX {
        uses as i64
    } else {
        i64::MAX
    }
}

/// Whether `counts` tallies `tags`: it has one entry for each tag that
/// occurs, none twice, and each entry counts the uses of its tag.
pub open spec fn tallies(counts: Seq<TagCount>, tags: Seq<Seq<char>>) -> bool {
    &&& forall|i: int, j: int|
        0 <= i < j < counts.len() ==> (#[trigger] counts[i]).tag@ != (#[trigger] counts[j]).tag@
    &&& forall|i: int|
        0 <= i < counts.len() ==> uses_in(tags, (#[trigger] counts[i]).tag@) > 0 && counts[i].count
            == capped(uses_in(tags, counts[i].tag@))
    &&& forall|tag: Seq<char>|
        uses_in(tags, tag) > 0 ==> exists|i: int|
            0 <= i < counts.len() && (#[trigger] counts[i]).tag@ == tag
}

/// One more use of `tag` in a tally.
fn tally(counts: &mut Vec<TagCount>, tag: &String, Ghost(seen): Ghost<Seq<Seq<char>>>)
    requires
        tallies(old(counts)@, seen),
    ensures
        tallies(final(counts)@, seen.push(tag@)),
{
    let ghost before = counts@;
    proof {
        assert forall|t: Seq<char>|
            #[trigger] uses_in(seen.push(tag@), t) == uses_in(seen, t) + (if t == tag@ {
                1nat
            } else {
                0nat
            }) by {
            seen.lemma_filter_push(tag@, is_tag(t));
        }
    }
    let mut i: usize = 0;
    while i < counts.len()
        invariant
            i <= counts.len(),
            counts@ == before,
            tallies(before, seen),
            forall|t: Seq<char>|
                #[trigger] uses_in(seen.push(tag@), t) == uses_in(seen, t) + (if t == tag@ {
                    1nat
                } else {
                    0nat
                }),
            forall|j: int| 0 <= j < i ==> (#[trigger] before[j]).tag@ != tag@,
        decreases counts.len() - i,
    {
        if counts[i].tag == *tag {
            let count: i64 = counts[i].count;
            if count < i64::MAX {
                counts[i].count = count + 1;
            }
            proof {
                let after = counts@;
                assert(after.len() == before.len());
                assert forall|j: int| 0 <= j < after.len() implies (#[trigger] after[j]).tag@
                    == before[j].tag@ by {}
                assert forall|a: int, b: int| 0 <= a < b < after.len() implies (
                #[trigger] after[a]).tag@ != (#[trigger] after[b]).tag@ by {
                    assert(before[a].tag@ != before[b].tag@);
                }
                assert forall|j: int| 0 <= j < after.len() implies uses_in(
                    seen.push(tag@),
                    (#[trigger] after[j]).tag@,
                ) > 0 && after[j].count == capped(uses_in(seen.push(tag@), after[j].tag@)) by {
                    assert(uses_in(seen, before[j].tag@) > 0);
                    if j != i {
                        if j < i {
                            assert(before[j].tag@ != before[i as int].tag@);
                        } else {
                            assert(before[i as int].tag@ != before[j].tag@);
                        }
                        assert(after[j] == before[j]);
                    }
                }
                assert forall|t: Seq<char>| uses_in(seen.push(tag@), t) > 0 implies exists|j: int|
                    0 <= j < after.len() && (#[trigger] after[j]).tag@ == t by {
                    if t == tag@ {
                        assert(after[i as int].tag@ == t);
                    } else {
                        let j = choose|j: int| 0 <= j < before.len() && (#[trigger] before[j]).tag@
                            == t;
                        assert(after[j].tag@ == t);
                    }
                }
            }
            return ;
        }
        i += 1;
    }
    counts.push(TagCount { tag: tag.clone(), count: 1 });
    proof {
        let after = counts@;
        let n = before.len() as int;
        assert(after[n].tag@ == tag@);
        assert(uses_in(seen, tag@) == 0) by {
            if uses_in(seen, tag@) > 0 {
                let j = choose|j: int| 0 <= j < before.len() && (#[trigger] before[j]).tag@ == tag@;
                assert(false);
            }
        }
        assert forall|a: int, b: int| 0 <= a < b < after.len() implies (#[trigger] after[a]).tag@ != (
        #[trigger] after[b]).tag@ by {
            if b < n {
                assert(before[a].tag@ != before[b].tag@);
            } else {
                assert(after[a] == before[a]);
            }
        }
        assert forall|j: int| 0 <= j < after.len() implies uses_in(
            seen.push(tag@),
            (#[trigger] after[j]).tag@,
        ) > 0 && after[j].count == capped(uses_in(seen.push(tag@), after[j].tag@)) by {
            if j < n {
                assert(after[j] == before[j]);
                assert(uses_in(seen, before[j].tag@) > 0);
            }
        }
        assert forall|t: Seq<char>| uses_in(seen.push(tag@), t) > 0 implies exists|j: int|
            0 <= j < after.len() && (#[trigger] after[j]).tag@ == t by {
            if t == tag@ {
                assert(after[n].tag@ == t);
            } else {
                let j = choose|j: int| 0 <= j < before.len() && (#[trigger] before[j]).tag@ == t;
                assert(after[j] == before[j]);
            }
        }
    }
}

impl MemoryStore {
    /// The tags that occur in the store, each once, with the number of its
    /// uses over all memories: the most used first, and of two used as often
    /// the one that comes first in the order of their characters.
    pub fn list_tags(&self) -> (counts: Vec<TagCount>)
        ensures
            tallies(counts@, all_tags(self@.rows)),
            in_rank_order(counts@),
    {
        let ghost rows = self@.rows;
        let mut counts: Vec<TagCount> = Vec::new();
        let mut r: usize = 0;
        proof {
            reveal(Seq::filter);
            assert(rows.take(0) =~= Seq::empty());
            assert(all_tags(rows.take(0)) =~= Seq::empty());
            assert forall|tag: Seq<char>| uses_in(Seq::empty(), tag) == 0 by {
                assert(Seq::<Seq<char>>::empty().filter(is_tag(tag)).len() == 0);
            }
        }
        while r < self.rows.len()
            invariant
                r <= self.rows.len(),
                rows == self@.rows,
                tallies(counts@, all_tags(rows.take(r as int))),
            decreases self.rows.len() - r,
        {
            let tags = &self.rows[r].tags;
            let ghost done = all_tags(rows.take(r as int));
            let ghost here = texts(tags@);
            let mut t: usize = 0;
            proof {
                assert(rows[r as int].tags == here);
                assert(here.take(0) =~= Seq::empty());
                assert(done + here.take(0) =~= done);
            }
            while t < tags.len()
                invariant
                    t <= tags.len(),
                    here == texts(tags@),
                    tallies(counts@, done + here.take(t as int)),
                decreases tags.len() - t,
            {
                tally(&mut counts, &tags[t], Ghost(done + here.take(t as int)));
                assert((done + here.take(t as int)).push(tags@[t as int]@) =~= done + here.take(
                    t + 1,
                ));
                t += 1;
            }
            proof {
                assert(here.take(tags.len() as int) =~= here);
                assert(rows.take(r + 1).drop_last() =~= rows.take(r as int));
                assert(rows.take(r + 1).last() == rows[r as int]);
            }
            r += 1;
        }
        assert(rows.take(self.rows.len() as int) =~= rows);
        let ghost unsorted = counts@;
        let sorted = rank(counts);
        proof {
            let tags = all_tags(rows);
            assert(unsorted.no_duplicates()) by {
                assert forall|i: int, j: int|
                    0 <= i < unsorted.len() && 0 <= j < unsorted.len() && i != j implies unsorted[i]
                    != unsorted[j] by {
                    if i < j {
                        assert(unsorted[i].tag@ != unsorted[j].tag@);
                    } else {
                        assert(unsorted[j].tag@ != unsorted[i].tag@);
                    }
                }
            }
            lemma_same_entries(unsorted, sorted@);
            assert forall|i: int, j: int| 0 <= i < j < sorted@.len() implies (
            #[trigger] sorted@[i]).tag@ != (#[trigger] sorted@[j]).tag@ by {
                assert(unsorted.contains(sorted@[i]));
                assert(unsorted.contains(sorted@[j]));
                let a = choose|a: int| 0 <= a < unsorted.len() && unsorted[a] == sorted@[i];
                let b = choose|b: int| 0 <= b < unsorted.len() && unsorted[b] == sorted@[j];
                assert(sorted@[i] != sorted@[j]);
                if a < b {
                    assert(unsorted[a].tag@ != unsorted[b].tag@);
                } else {
                    assert(unsorted[b].tag@ != unsorted[a].tag@);
                }
            }
            assert forall|i: int| 0 <= i < sorted@.len() implies uses_in(
                tags,
                (#[trigger] sorted@[i]).tag@,
            ) > 0 && sorted@[i].count == capped(uses_in(tags, sorted@[i].tag@)) by {
                assert(unsorted.contains(sorted@[i]));
                let a = choose|a: int| 0 <= a < unsorted.len() && unsorted[a] == sorted@[i];
                assert(uses_in(tags, unsorted[a].tag@) > 0);
            }
            assert forall|tag: Seq<char>| uses_in(tags, tag) > 0 implies exists|i: int|
                0 <= i < sorted@.len() && (#[trigger] sorted@[i]).tag@ == tag by {
                let a = choose|a: int| 0 <= a < unsorted.len() && (#[trigger] unsorted[a]).tag@
                    == tag;
                assert(sorted@.contains(unsorted[a]));
                let k = choose|k: int| 0 <= k < sorted@.len() && sorted@[k] == unsorted[a];
                assert(sorted@[k].tag@ == tag);
            }
        }
        sorted
    }
}

} // verus!
