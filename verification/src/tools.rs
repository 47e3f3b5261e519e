//! Small rules of the tools that an agent calls: how many memories a recall
//! returns, which memories a rating names, which results are shown and how
//! much of them.

use vstd::prelude::*;
use crate::model::{Memory, MemorizeNeighbor, MemoryLink, StoreError};
use crate::recall::other_end;
use crate::tags::has_tag;
use crate::text::{chars_of, string_of, texts};

verus! {

/// How many memories a recall returns where the request does not say.
pub const DEFAULT_RECALL_LIMIT: usize = 5;

/// How many memories a recall returns at most.
pub const MAX_RECALL_LIMIT: usize = 10;

/// A neighbour closer than this, in millionths, is pointed out to the
/// caller as one that may compete with the memory just written.
pub const CLOSE_NEIGHBOR_THRESHOLD: u64 = 220_000;

/// How many memories a recall returns: what the request asks for, or
/// `DEFAULT_RECALL_LIMIT`, but at least one and at most `MAX_RECALL_LIMIT`.
pub fn recall_limit(requested: Option<usize>) -> (limit: usize)
    ensures
        limit == match requested {
            Some(n) => if n < 1 {
                1
            } else if n > MAX_RECALL_LIMIT {
                MAX_RECALL_LIMIT
            } else {
                n
            },
            None => DEFAULT_RECALL_LIMIT,
        },
{
    match requested {
        Some(n) => if n < 1 {
            1
        } else if n > MAX_RECALL_LIMIT {
            MAX_RECALL_LIMIT
        } else {
            n
        },
        None => DEFAULT_RECALL_LIMIT,
    }
}

/// The mnemonics that a rating names: those of `batch`, and before them
/// `single` unless it is among them.
pub open spec fn rated_names(single: Option<Seq<char>>, batch: Option<Seq<Seq<char>>>) -> Seq<
    Seq<char>,
> {
    let listed = match batch {
        Some(b) => b,
        None => Seq::empty(),
    };
    match single {
        Some(s) => if listed.contains(s) {
            listed
        } else {
            seq![s] + listed
        },
        None => listed,
    }
}

/// The text of an optional mnemonic.
pub open spec fn named_one(single: Option<String>) -> Option<Seq<char>> {
    match single {
        Some(s) => Some(s@),
        None => None,
    }
}

/// The texts of an optional list of mnemonics.
pub open spec fn named_many(batch: Option<Vec<String>>) -> Option<Seq<Seq<char>>> {
    match batch {
        Some(b) => Some(texts(b@)),
        None => None,
    }
}

/// The mnemonics that a rating names.
pub fn rating_targets(single: Option<String>, batch: Option<Vec<String>>) -> (all: Vec<String>)
    ensures
        texts(all@) == rated_names(named_one(single), named_many(batch)),
{
    let mut all = match batch {
        Some(b) => b,
        None => {
            let none: Vec<String> = Vec::new();
            assert(texts(none@) =~= Seq::empty());
            none
        },
    };
    match single {
        Some(s) => {
            if !has_tag(&all, s.as_str()) {
                let ghost before = texts(all@);
                let ghost name = s@;
                all.insert(0, s);
                assert(texts(all@) =~= seq![name] + before);
            }
        },
        None => {},
    }
    all
}

/// The mnemonics that a rating names, which must be one at least: a rating
/// that names no memory is refused as `EmptyRating`.
pub fn rating_request(single: Option<String>, batch: Option<Vec<String>>) -> (all: Result<
    Vec<String>,
    StoreError,
>)
    ensures
        match all {
            Ok(names) => {
                &&& texts(names@) == rated_names(named_one(single), named_many(batch))
                &&& names@.len() > 0
            },
            Err(e) => {
                &&& e == StoreError::EmptyRating
                &&& rated_names(named_one(single), named_many(batch)).len() == 0
            },
        },
{
    let names = rating_targets(single, batch);
    if names.len() == 0 {
        Err(StoreError::EmptyRating)
    } else {
        Ok(names)
    }
}

/// What a rating says, of a caller who marks it useful or not useful and
/// must mark one of the two: whether it is useful, or `EmptyRating` where
/// neither is marked.
pub fn rating_choice(useful: bool, not_useful: bool) -> (choice: Result<bool, StoreError>)
    ensures
        choice == (if !useful && !not_useful {
            Err::<bool, StoreError>(StoreError::EmptyRating)
        } else {
            Ok::<bool, StoreError>(useful)
        }),
{
    if !useful && !not_useful {
        Err(StoreError::EmptyRating)
    } else {
        Ok(useful)
    }
}

/// The predicate "has a score of `min_score` or more".
pub open spec fn scores_at_least(min_score: i64) -> spec_fn(Memory) -> bool {
    |m: Memory| m.score >= min_score
}

/// The memories with a score of `min_score` or more, in their order.
pub fn scored_at_least(memories: Vec<Memory>, min_score: i64) -> (kept: Vec<Memory>)
    ensures
        kept@ == memories@.filter(scores_at_least(min_score)),
{
    let ghost all = memories@;
    let ghost passes = scores_at_least(min_score);
    let mut rest = memories;
    let mut out: Vec<Memory> = Vec::new();
    let ghost mut done: int = 0;
    proof {
        reveal(Seq::filter);
        assert(all.take(0) =~= Seq::empty());
        assert(all.skip(0) =~= all);
    }
    while rest.len() > 0
        invariant
            0 <= done <= all.len(),
            passes == scores_at_least(min_score),
            rest@ == all.skip(done),
            out@ == all.take(done).filter(passes),
        decreases rest.len(),
    {
        let m = rest.remove(0);
        proof {
            assert(m == all[done]);
            assert(rest@ =~= all.skip(done + 1));
            assert(all.take(done + 1) =~= all.take(done).push(m));
            all.take(done).lemma_filter_push(m, passes);
            done = done + 1;
        }
        if m.score >= min_score {
            out.push(m);
        }
    }
    assert(all.take(done) =~= all);
    out
}

/// The predicate "is closer than `CLOSE_NEIGHBOR_THRESHOLD`".
pub open spec fn is_close() -> spec_fn(MemorizeNeighbor) -> bool {
    |n: MemorizeNeighbor| n.distance < CLOSE_NEIGHBOR_THRESHOLD
}

/// How many of `neighbors` are closer than `CLOSE_NEIGHBOR_THRESHOLD`.
pub fn close_neighbor_count(neighbors: &Vec<MemorizeNeighbor>) -> (count: usize)
    ensures
        count == neighbors@.filter(is_close()).len(),
{
    let mut count: usize = 0;
    let mut i: usize = 0;
    proof {
        reveal(Seq::filter);
        assert(neighbors@.take(0) =~= Seq::empty());
    }
    while i < neighbors.len()
        invariant
            i <= neighbors.len(),
            count == neighbors@.take(i as int).filter(is_close()).len(),
            count <= i,
        decreases neighbors.len() - i,
    {
        proof {
            assert(neighbors@.take(i + 1) =~= neighbors@.take(i as int).push(neighbors@[i as int]));
            neighbors@.take(i as int).lemma_filter_push(neighbors@[i as int], is_close());
        }
        if neighbors[i].distance < CLOSE_NEIGHBOR_THRESHOLD {
            count += 1;
        }
        i += 1;
    }
    assert(neighbors@.take(neighbors.len() as int) =~= neighbors@);
    count
}

/// What is shown of a body: all of it, or with `max` its first `max`
/// characters where it has more.
pub open spec fn clipped(body: Seq<char>, max: Option<usize>) -> Seq<char> {
    if max is Some && body.len() > max->0 {
        body.take(max->0 as int)
    } else {
        body
    }
}

/// What is shown of a body, and how many of its characters are left out.
pub fn clip_body(body: &str, max: Option<usize>) -> (shown: (String, usize))
    ensures
        shown.0@ == clipped(body@, max),
        shown.1 == body@.len() - clipped(body@, max).len(),
{
    let chars = chars_of(body);
    match max {
        Some(max) => {
            if chars.len() > max {
                let mut kept: Vec<char> = Vec::new();
                let mut i: usize = 0;
                while i < max
                    invariant
                        i <= max,
                        max < chars.len(),
                        kept@ == chars@.take(i as int),
                    decreases max - i,
                {
                    kept.push(chars[i]);
                    assert(kept@ =~= chars@.take(i + 1));
                    i += 1;
                }
                return (string_of(&kept), chars.len() - max);
            }
        },
        None => {},
    }
    (string_of(&chars), 0)
}

/// The memory at the other end of a link of the memory `mnemonic`.
pub fn other_end_of(link: &MemoryLink, mnemonic: &str) -> (other: String)
    ensures
        other@ == other_end(link@, mnemonic@),
{
    if link.source_mnemonic == mnemonic.to_owned() {
        link.target_mnemonic.clone()
    } else {
        link.source_mnemonic.clone()
    }
}

} // verus!
