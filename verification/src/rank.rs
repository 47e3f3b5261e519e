//! Ordering a sequence by a rule that says which of two entries goes first.

use vstd::prelude::*;

verus! {

/// A value with a rule for which of two goes first. The rule is a strict
/// weak order: it never puts two values each before the other, and "does not
/// go before" carries over from pair to pair.
pub trait Ranked: Sized {
    /// Whether `self` must stand before `other`.
    spec fn ahead(&self, other: &Self) -> bool;

    /// Whether `self` must stand before `other`.
    fn is_ahead(&self, other: &Self) -> (first: bool)
        ensures
            first == self.ahead(other),
    ;

    /// Of two values at most one goes before the other.
    proof fn lemma_one_way(a: &Self, b: &Self)
        ensures
            a.ahead(b) ==> !b.ahead(a),
    ;

    /// Where `b` does not go before `a`, and `c` does not go before `b`,
    /// `c` does not go before `a`.
    proof fn lemma_carries(a: &Self, b: &Self, c: &Self)
        requires
            !b.ahead(a),
            !c.ahead(b),
        ensures
            !c.ahead(a),
    ;
}

/// `x` put into `s` behind the leading entries that go before it.
pub open spec fn placed<T: Ranked>(x: T, s: Seq<T>) -> Seq<T>
    decreases s.len(),
{
    if s.len() == 0 {
        seq![x]
    } else if s[0].ahead(&x) {
        seq![s[0]] + placed(x, s.drop_first())
    } else {
        seq![x] + s
    }
}

/// The entries of `s` in rank order. Entries of which neither goes before
/// the other keep the order they had in `s`.
pub open spec fn ranked<T: Ranked>(s: Seq<T>) -> Seq<T>
    decreases s.len(),
{
    if s.len() == 0 {
        s
    } else {
        placed(s[0], ranked(s.drop_first()))
    }
}

/// Whether no entry of `s` goes before an entry that stands before it.
pub open spec fn in_rank_order<T: Ranked>(s: Seq<T>) -> bool {
    forall|i: int, j: int| #![trigger s[i], s[j]] 0 <= i < j < s.len() ==> !s[j].ahead(&s[i])
}

/// `placed` puts `x` at the position `p` up to which entries go before `x`.
pub proof fn lemma_placed_at<T: Ranked>(x: T, s: Seq<T>, p: int)
    requires
        0 <= p <= s.len(),
        forall|i: int| 0 <= i < p ==> (#[trigger] s[i]).ahead(&x),
        p < s.len() ==> !s[p].ahead(&x),
    ensures
        placed(x, s) == s.insert(p, x),
    decreases p,
{
    if p == 0 {
        assert(seq![x] + s =~= s.insert(0, x));
    } else {
        let rest = s.drop_first();
        assert forall|i: int| 0 <= i < p - 1 implies (#[trigger] rest[i]).ahead(&x) by {
            assert(rest[i] == s[i + 1]);
        }
        lemma_placed_at(x, rest, p - 1);
        assert(seq![s[0]] + rest.insert(p - 1, x) =~= s.insert(p, x));
    }
}

/// Placing keeps what was there and adds `x`, and keeps rank order.
pub proof fn lemma_placed<T: Ranked>(x: T, s: Seq<T>)
    ensures
        placed(x, s).to_multiset() == s.to_multiset().insert(x),
        placed(x, s).len() == s.len() + 1,
        in_rank_order(s) ==> in_rank_order(placed(x, s)),
    decreases s.len(),
{
    broadcast use vstd::seq_lib::group_to_multiset_ensures;

    if s.len() == 0 {
        assert(s =~= Seq::empty());
        assert(seq![x] =~= Seq::<T>::empty().push(x));
    } else if s[0].ahead(&x) {
        let rest = s.drop_first();
        lemma_placed(x, rest);
        let tail = placed(x, rest);
        let out = seq![s[0]] + tail;
        assert(out =~= tail.insert(0, s[0]));
        assert(s =~= rest.insert(0, s[0]));
        tail.to_multiset_ensures();
        rest.to_multiset_ensures();
        assert(out.to_multiset() =~= s.to_multiset().insert(x));
        if in_rank_order(s) {
            assert(in_rank_order(rest)) by {
                assert forall|i: int, j: int|
                    #![trigger rest[i], rest[j]]
                    0 <= i < j < rest.len() implies !rest[j].ahead(&rest[i]) by {
                    assert(rest[i] == s[i + 1] && rest[j] == s[j + 1]);
                }
            }
            assert forall|i: int, j: int|
                #![trigger out[i], out[j]]
                0 <= i < j < out.len() implies !out[j].ahead(&out[i]) by {
                if i > 0 {
                    assert(out[i] == tail[i - 1] && out[j] == tail[j - 1]);
                } else {
                    assert(out[j] == tail[j - 1]);
                    lemma_tail_member(x, rest, j - 1);
                    if tail[j - 1] == x {
                        T::lemma_one_way(&s[0], &x);
                    } else {
                        let k = choose|k: int| 0 <= k < rest.len() && rest[k] == tail[j - 1];
                        assert(rest[k] == s[k + 1]);
                    }
                }
            }
        }
    } else {
        let out = seq![x] + s;
        assert(out =~= s.insert(0, x));
        s.to_multiset_ensures();
        if in_rank_order(s) {
            assert forall|i: int, j: int|
                #![trigger out[i], out[j]]
                0 <= i < j < out.len() implies !out[j].ahead(&out[i]) by {
                if i > 0 {
                    assert(out[i] == s[i - 1] && out[j] == s[j - 1]);
                } else {
                    assert(out[j] == s[j - 1]);
                    if j - 1 > 0 {
                        T::lemma_carries(&x, &s[0], &s[j - 1]);
                    }
                }
            }
        }
    }
}

/// Every entry of `placed(x, s)` is `x` or an entry of `s`.
pub proof fn lemma_tail_member<T: Ranked>(x: T, s: Seq<T>, j: int)
    requires
        0 <= j < placed(x, s).len(),
    ensures
        placed(x, s)[j] == x || exists|k: int| 0 <= k < s.len() && #[trigger] s[k] == placed(
            x,
            s,
        )[j],
    decreases s.len(),
{
    if s.len() == 0 {
    } else if s[0].ahead(&x) {
        if j > 0 {
            let rest = s.drop_first();
            lemma_tail_member(x, rest, j - 1);
            if placed(x, rest)[j - 1] != x {
                let k = choose|k: int| 0 <= k < rest.len() && rest[k] == placed(x, rest)[j - 1];
                assert(s[k + 1] == placed(x, s)[j]);
            }
        } else {
            assert(s[0] == placed(x, s)[j]);
        }
    } else {
        if j > 0 {
            assert(s[j - 1] == placed(x, s)[j]);
        }
    }
}

/// Ranking keeps every entry, as often as it occurred, and yields rank order.
pub proof fn lemma_ranked<T: Ranked>(s: Seq<T>)
    ensures
        ranked(s).to_multiset() == s.to_multiset(),
        ranked(s).len() == s.len(),
        in_rank_order(ranked(s)),
    decreases s.len(),
{
    broadcast use vstd::seq_lib::group_to_multiset_ensures;

    if s.len() > 0 {
        let rest = s.drop_first();
        lemma_ranked(rest);
        lemma_placed(s[0], ranked(rest));
        assert(s =~= rest.insert(0, s[0]));
        rest.to_multiset_ensures();
    }
}

/// Two sequences with the same entries, as often: each entry of one is an
/// entry of the other, and if one has no entry twice, the other has none twice.
pub proof fn lemma_same_entries<T>(a: Seq<T>, b: Seq<T>)
    requires
        a.to_multiset() == b.to_multiset(),
    ensures
        forall|i: int| 0 <= i < a.len() ==> b.contains(#[trigger] a[i]),
        forall|i: int| 0 <= i < b.len() ==> a.contains(#[trigger] b[i]),
        a.no_duplicates() ==> b.no_duplicates(),
{
    broadcast use vstd::seq_lib::group_to_multiset_ensures;

    a.to_multiset_ensures();
    b.to_multiset_ensures();
    assert forall|i: int| 0 <= i < a.len() implies b.contains(#[trigger] a[i]) by {
        assert(a.contains(a[i]));
        assert(a.to_multiset().count(a[i]) > 0);
    }
    assert forall|i: int| 0 <= i < b.len() implies a.contains(#[trigger] b[i]) by {
        assert(b.contains(b[i]));
        assert(b.to_multiset().count(b[i]) > 0);
    }
    if a.no_duplicates() {
        a.lemma_multiset_has_no_duplicates();
        b.lemma_multiset_has_no_duplicates_conv();
    }
}

/// Puts `items` in rank order.
pub fn rank<T: Ranked>(items: Vec<T>) -> (sorted: Vec<T>)
    ensures
        sorted@ == ranked(items@),
        sorted@.to_multiset() == items@.to_multiset(),
        sorted@.len() == items@.len(),
        in_rank_order(sorted@),
{
    let ghost all = items@;
    let mut rest = items;
    let mut out: Vec<T> = Vec::new();
    proof {
        assert(all.subrange(all.len() as int, all.len() as int) =~= Seq::empty());
    }
    while rest.len() > 0
        invariant
            rest@ == all.take(rest.len() as int),
            rest.len() <= all.len(),
            out@ == ranked(all.subrange(rest.len() as int, all.len() as int)),
        decreases rest.len(),
    {
        let ghost n = rest.len() as int;
        let x = rest.pop().unwrap();
        let mut p: usize = 0;
        while p < out.len() && out[p].is_ahead(&x)
            invariant
                p <= out.len(),
                forall|i: int| 0 <= i < p ==> (#[trigger] out@[i]).ahead(&x),
            decreases out.len() - p,
        {
            p += 1;
        }
        proof {
            lemma_placed_at(x, out@, p as int);
            let span = all.subrange(n - 1, all.len() as int);
            assert(span[0] == x);
            assert(span.drop_first() =~= all.subrange(n, all.len() as int));
            assert(rest@ =~= all.take(n - 1));
        }
        out.insert(p, x);
    }
    proof {
        assert(all.subrange(0, all.len() as int) =~= all);
        lemma_ranked(all);
    }
    out
}

} // verus!
