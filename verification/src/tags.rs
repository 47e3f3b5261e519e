//! Tag sequences. A memory's tags are an ordered sequence that is read as a
//! set: membership decides, and the order in which tags arrived is kept.

use vstd::prelude::*;
use crate::text::texts;

verus! {

/// The predicate "occurs in `list`".
pub open spec fn present_in(list: Seq<Seq<char>>) -> spec_fn(Seq<char>) -> bool {
    |t: Seq<char>| list.contains(t)
}

/// The predicate "does not occur in `list`".
pub open spec fn absent_from(list: Seq<Seq<char>>) -> spec_fn(Seq<char>) -> bool {
    |t: Seq<char>| !list.contains(t)
}

/// The predicate "is not `tag`".
pub open spec fn differs_from(tag: Seq<char>) -> spec_fn(Seq<char>) -> bool {
    |t: Seq<char>| t != tag
}

/// `base`, followed by each tag of `extra` that has not occurred before it,
/// in the order of `extra`.
pub open spec fn union_tags(base: Seq<Seq<char>>, extra: Seq<Seq<char>>) -> Seq<Seq<char>>
    decreases extra.len(),
{
    if extra.len() == 0 {
        base
    } else {
        let before = union_tags(base, extra.drop_last());
        if before.contains(extra.last()) {
            before
        } else {
            before.push(extra.last())
        }
    }
}

/// The tags after an edit: those of `add` that are missing are appended, then
/// every tag listed in `remove` is taken out. The order of what stays is kept.
pub open spec fn edited_tags(
    tags: Seq<Seq<char>>,
    add: Seq<Seq<char>>,
    remove: Seq<Seq<char>>,
) -> Seq<Seq<char>> {
    union_tags(tags, add).filter(absent_from(remove))
}

/// The tags after `old` is renamed to `new`: `old` leaves, and `new` is
/// appended unless it is already there.
pub open spec fn renamed_tags(tags: Seq<Seq<char>>, old: Seq<char>, new: Seq<char>) -> Seq<
    Seq<char>,
> {
    let kept = tags.filter(differs_from(old));
    if kept.contains(new) {
        kept
    } else {
        kept.push(new)
    }
}

/// Whether some tag of `wanted` occurs in `tags`.
pub open spec fn shares_tag(tags: Seq<Seq<char>>, wanted: Seq<Seq<char>>) -> bool {
    exists|i: int| 0 <= i < wanted.len() && tags.contains(#[trigger] wanted[i])
}

/// How many entries of `tags` occur in `boost`.
pub open spec fn count_shared(tags: Seq<Seq<char>>, boost: Seq<Seq<char>>) -> nat {
    tags.filter(present_in(boost)).len()
}

/// Whether `tag` occurs in `tags`.
pub fn has_tag(tags: &Vec<String>, tag: &str) -> (found: bool)
    ensures
        found == texts(tags@).contains(tag@),
{
    let key = tag.to_owned();
    let mut i: usize = 0;
    while i < tags.len()
        invariant
            i <= tags.len(),
            key@ == tag@,
            forall|j: int| 0 <= j < i ==> texts(tags@)[j] != tag@,
        decreases tags.len() - i,
    {
        if tags[i] == key {
            assert(texts(tags@)[i as int] == tag@);
            return true;
        }
        i += 1;
    }
    false
}

/// A copy of `tags`.
pub fn copy_tags(tags: &Vec<String>) -> (copy: Vec<String>)
    ensures
        texts(copy@) == texts(tags@),
{
    let mut out: Vec<String> = Vec::new();
    let mut i: usize = 0;
    while i < tags.len()
        invariant
            i <= tags.len(),
            texts(out@) == texts(tags@).take(i as int),
        decreases tags.len() - i,
    {
        let ghost before = texts(out@);
        out.push(tags[i].clone());
        assert(texts(out@) =~= before.push(tags@[i as int]@));
        assert(texts(tags@).take(i + 1) =~= before.push(tags@[i as int]@));
        i += 1;
    }
    assert(texts(tags@).take(tags.len() as int) =~= texts(tags@));
    out
}

/// The union of two tag lists: `config_tags` first, then what `explicit_tags`
/// adds to them.
pub fn merge_tags(config_tags: &Vec<String>, explicit_tags: &Vec<String>) -> (merged: Vec<String>)
    ensures
        texts(merged@) == union_tags(texts(config_tags@), texts(explicit_tags@)),
{
    let mut out = copy_tags(config_tags);
    let mut i: usize = 0;
    assert(texts(explicit_tags@).take(0) =~= Seq::empty());
    while i < explicit_tags.len()
        invariant
            i <= explicit_tags.len(),
            texts(out@) == union_tags(texts(config_tags@), texts(explicit_tags@).take(i as int)),
        decreases explicit_tags.len() - i,
    {
        let ghost extra = texts(explicit_tags@);
        assert(extra.take(i + 1).drop_last() =~= extra.take(i as int));
        assert(extra.take(i + 1).last() == explicit_tags@[i as int]@);
        if !has_tag(&out, explicit_tags[i].as_str()) {
            let ghost before = texts(out@);
            out.push(explicit_tags[i].clone());
            assert(texts(out@) =~= before.push(explicit_tags@[i as int]@));
        }
        i += 1;
    }
    assert(texts(explicit_tags@).take(explicit_tags.len() as int) =~= texts(explicit_tags@));
    out
}

/// The entries of `tags` that do not occur in `remove`.
pub fn without_tags(tags: &Vec<String>, remove: &Vec<String>) -> (kept: Vec<String>)
    ensures
        texts(kept@) == texts(tags@).filter(absent_from(texts(remove@))),
{
    let mut out: Vec<String> = Vec::new();
    let mut i: usize = 0;
    let ghost all = texts(tags@);
    let ghost keep = absent_from(texts(remove@));
    proof {
        reveal(Seq::filter);
        assert(all.take(0) =~= Seq::empty());
    }
    while i < tags.len()
        invariant
            i <= tags.len(),
            all == texts(tags@),
            keep == absent_from(texts(remove@)),
            texts(out@) == all.take(i as int).filter(keep),
        decreases tags.len() - i,
    {
        proof {
            assert(all.take(i + 1) =~= all.take(i as int).push(all[i as int]));
            all.take(i as int).lemma_filter_push(all[i as int], keep);
        }
        if !has_tag(remove, tags[i].as_str()) {
            let ghost before = texts(out@);
            out.push(tags[i].clone());
            assert(texts(out@) =~= before.push(all[i as int]));
        }
        i += 1;
    }
    assert(all.take(tags.len() as int) =~= all);
    out
}

/// The tags after an edit that adds `add` and removes `remove`.
pub fn edit_tags(tags: &Vec<String>, add: &Vec<String>, remove: &Vec<String>) -> (edited: Vec<
    String,
>)
    ensures
        texts(edited@) == edited_tags(texts(tags@), texts(add@), texts(remove@)),
{
    let grown = merge_tags(tags, add);
    without_tags(&grown, remove)
}

/// The tags after `old` is renamed to `new`.
pub fn rename_in_tags(tags: &Vec<String>, old: &str, new: &str) -> (renamed: Vec<String>)
    ensures
        texts(renamed@) == renamed_tags(texts(tags@), old@, new@),
{
    let old_key = old.to_owned();
    let mut out: Vec<String> = Vec::new();
    let mut i: usize = 0;
    let ghost all = texts(tags@);
    let ghost keep = differs_from(old@);
    proof {
        reveal(Seq::filter);
        assert(all.take(0) =~= Seq::empty());
    }
    while i < tags.len()
        invariant
            i <= tags.len(),
            all == texts(tags@),
            keep == differs_from(old@),
            old_key@ == old@,
            texts(out@) == all.take(i as int).filter(keep),
        decreases tags.len() - i,
    {
        proof {
            assert(all.take(i + 1) =~= all.take(i as int).push(all[i as int]));
            all.take(i as int).lemma_filter_push(all[i as int], keep);
        }
        if tags[i] != old_key {
            let ghost before = texts(out@);
            out.push(tags[i].clone());
            assert(texts(out@) =~= before.push(all[i as int]));
        }
        i += 1;
    }
    assert(all.take(tags.len() as int) =~= all);
    if !has_tag(&out, new) {
        let ghost before = texts(out@);
        out.push(new.to_owned());
        assert(texts(out@) =~= before.push(new@));
    }
    out
}

/// Whether some tag of `wanted` occurs in `tags`.
pub fn any_shared_tag(tags: &Vec<String>, wanted: &Vec<String>) -> (shared: bool)
    ensures
        shared == shares_tag(texts(tags@), texts(wanted@)),
{
    let mut i: usize = 0;
    while i < wanted.len()
        invariant
            i <= wanted.len(),
            forall|j: int| 0 <= j < i ==> !texts(tags@).contains(#[trigger] texts(wanted@)[j]),
        decreases wanted.len() - i,
    {
        if has_tag(tags, wanted[i].as_str()) {
            assert(texts(tags@).contains(texts(wanted@)[i as int]));
            return true;
        }
        i += 1;
    }
    false
}

/// How many entries of `tags` occur in `boost`.
pub fn shared_tag_count(tags: &Vec<String>, boost: &Vec<String>) -> (count: usize)
    ensures
        count == count_shared(texts(tags@), texts(boost@)),
{
    let mut count: usize = 0;
    let mut i: usize = 0;
    let ghost all = texts(tags@);
    let ghost keep = present_in(texts(boost@));
    proof {
        reveal(Seq::filter);
        assert(all.take(0) =~= Seq::empty());
    }
    while i < tags.len()
        invariant
            i <= tags.len(),
            all == texts(tags@),
            keep == present_in(texts(boost@)),
            count == all.take(i as int).filter(keep).len(),
            count <= i,
        decreases tags.len() - i,
    {
        proof {
            assert(all.take(i + 1) =~= all.take(i as int).push(all[i as int]));
            all.take(i as int).lemma_filter_push(all[i as int], keep);
        }
        if has_tag(boost, tags[i].as_str()) {
            count += 1;
        }
        i += 1;
    }
    assert(all.take(tags.len() as int) =~= all);
    count
}

} // verus!
