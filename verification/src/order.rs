//! Keeping a list in order of weight: the lightest first, and of two entries
//! of equal weight the one that was there first.

use vstd::prelude::*;

verus! {

/// An entry that has a weight to be ordered by.
pub trait Weighted: Sized {
    /// The weight of the entry.
    spec fn weight(self) -> int;

    /// Whether the entry is lighter than `other`.
    fn lighter(&self, other: &Self) -> (yes: bool)
        ensures
            yes == (self.weight() < other.weight()),
    ;
}

/// How many entries at the end of `t` are heavier than `w`, counted from the
/// last back to the first that is not.
pub open spec fn heavier_tail<E: Weighted>(t: Seq<E>, w: int) -> nat
    decreases t.len(),
{
    if t.len() == 0 {
        0
    } else if w < t.last().weight() {
        1 + heavier_tail(t.drop_last(), w)
    } else {
        0
    }
}

/// `t` with `e` put in before the heavier entries at its end.
pub open spec fn slot_in<E: Weighted>(t: Seq<E>, e: E) -> Seq<E> {
    t.insert(t.len() - heavier_tail(t, e.weight()), e)
}

/// The entries of `s` in order of weight, entries of equal weight in the
/// order in which they stand in `s`.
pub open spec fn by_weight<E: Weighted>(s: Seq<E>) -> Seq<E>
    decreases s.len(),
{
    if s.len() == 0 {
        s
    } else {
        slot_in(by_weight(s.drop_last()), s.last())
    }
}

/// Whether no entry of `s` is heavier than one behind it.
pub open spec fn ordered<E: Weighted>(s: Seq<E>) -> bool {
    forall|i: int, j: int| 0 <= i < j < s.len() ==> s[i].weight() <= s[j].weight()
}

/// The heavier tail is no longer than the list.
pub proof fn lemma_heavier_tail_bound<E: Weighted>(t: Seq<E>, w: int)
    ensures
        heavier_tail(t, w) <= t.len(),
        forall|j: int| t.len() - heavier_tail(t, w) <= j < t.len() ==> w < (#[trigger] t[j]).weight(),
        heavier_tail(t, w) < t.len() ==> t[t.len() - heavier_tail(t, w) - 1].weight() <= w,
    decreases t.len(),
{
    if t.len() > 0 && w < t.last().weight() {
        let front = t.drop_last();
        lemma_heavier_tail_bound(front, w);
        assert forall|j: int| t.len() - heavier_tail(t, w) <= j < t.len() implies w < (#[trigger] t[j]).weight() by {
            if j < front.len() {
                assert(front[j] == t[j]);
            }
        }
        if heavier_tail(t, w) < t.len() {
            assert(front[front.len() - heavier_tail(front, w) - 1] == t[t.len() - heavier_tail(t, w) - 1]);
        }
    }
}

/// The heavier tail is the run of heavier entries at the end.
pub proof fn lemma_heavier_tail_is<E: Weighted>(t: Seq<E>, w: int, k: int)
    requires
        0 <= k <= t.len(),
        forall|j: int| t.len() - k <= j < t.len() ==> w < (#[trigger] t[j]).weight(),
        k < t.len() ==> t[t.len() - k - 1].weight() <= w,
    ensures
        heavier_tail(t, w) == k,
    decreases k,
{
    if k > 0 {
        let front = t.drop_last();
        assert(w < t[t.len() - 1].weight());
        assert forall|j: int| front.len() - (k - 1) <= j < front.len() implies w < (#[trigger] front[j]).weight() by {
            assert(front[j] == t[j]);
        }
        if k - 1 < front.len() {
            assert(front[front.len() - (k - 1) - 1] == t[t.len() - k - 1]);
        }
        lemma_heavier_tail_is(front, w, k - 1);
    } else if t.len() > 0 {
        assert(t.last() == t[t.len() - 1]);
    }
}

/// An entry put into an ordered list leaves it ordered.
pub proof fn lemma_slot_in_ordered<E: Weighted>(t: Seq<E>, e: E)
    requires
        ordered(t),
    ensures
        ordered(slot_in(t, e)),
        slot_in(t, e).to_multiset() == t.to_multiset().insert(e),
        slot_in(t, e).len() == t.len() + 1,
{
    let w = e.weight();
    let k = t.len() - heavier_tail(t, w);
    lemma_heavier_tail_bound(t, w);
    let r = slot_in(t, e);
    assert forall|i: int, j: int| 0 <= i < j < r.len() implies r[i].weight() <= r[j].weight() by {
        if i < k && j > k {
            assert(r[i] == t[i] && r[j] == t[j - 1]);
        } else if i < k && j < k {
            assert(r[i] == t[i] && r[j] == t[j]);
        } else if i > k {
            assert(r[i] == t[i - 1] && r[j] == t[j - 1]);
        } else if j == k {
            assert(r[i] == t[i]);
            if i < k - 1 {
                assert(t[i].weight() <= t[k - 1].weight());
            }
        } else {
            assert(r[j] == t[j - 1]);
        }
    }
    vstd::seq_lib::to_multiset_insert(t, k, e);
}

/// **Ordering.** A list in order of weight holds what the list held, no
/// entry before a lighter one.
pub proof fn law_by_weight_orders<E: Weighted>(s: Seq<E>)
    ensures
        ordered(by_weight(s)),
        by_weight(s).to_multiset() == s.to_multiset(),
        by_weight(s).len() == s.len(),
    decreases s.len(),
{
    if s.len() > 0 {
        let front = s.drop_last();
        law_by_weight_orders(front);
        lemma_slot_in_ordered(by_weight(front), s.last());
        assert(front.push(s.last()) == s);
        vstd::seq_lib::to_multiset_build(front, s.last());
    }
}

/// **Idempotence.** A list that is in order stays as it is.
pub proof fn law_ordered_stays<E: Weighted>(s: Seq<E>)
    requires
        ordered(s),
    ensures
        by_weight(s) == s,
    decreases s.len(),
{
    if s.len() > 0 {
        let front = s.drop_last();
        assert forall|i: int, j: int| 0 <= i < j < front.len() implies front[i].weight() <= front[j].weight() by {
            assert(front[i] == s[i] && front[j] == s[j]);
        }
        law_ordered_stays(front);
        assert forall|j: int| front.len() - 0 <= j < front.len() implies s.last().weight() < (#[trigger] front[j]).weight() by {}
        if front.len() > 0 {
            assert(front[front.len() - 1] == s[s.len() - 2]);
            assert(s[s.len() - 2].weight() <= s[s.len() - 1].weight());
        }
        lemma_heavier_tail_is(front, s.last().weight(), 0);
        assert(slot_in(front, s.last()) == s);
    }
}

/// Moves the entry at index `i` forward past the heavier entries before it.
pub fn sift<E: Weighted + Copy>(v: &mut Vec<E>, i: usize)
    requires
        i < old(v)@.len(),
    ensures
        final(v)@.len() == old(v)@.len(),
        final(v)@.take(i + 1) == slot_in(old(v)@.take(i as int), old(v)@[i as int]),
        final(v)@.skip(i + 1) == old(v)@.skip(i + 1),
{
    let ghost t = v@.take(i as int);
    let ghost e = v@[i as int];
    let ghost rest = v@.skip(i + 1);
    let entry = v[i];
    let mut j: usize = i;
    proof {
        assert(v@.take(i + 1) == t.insert(i as int, e));
    }
    while j > 0 && entry.lighter(&v[j - 1])
        invariant
            j <= i,
            i < v@.len(),
            v@.len() == old(v)@.len(),
            t == old(v)@.take(i as int),
            e == old(v)@[i as int],
            entry == e,
            rest == old(v)@.skip(i + 1),
            v@.take(i + 1) == t.insert(j as int, e),
            v@.skip(i + 1) == rest,
            forall|k: int| j <= k < i ==> e.weight() < (#[trigger] t[k]).weight(),
        decreases j,
    {
        let before = v[j - 1];
        let ghost was = v@;
        proof {
            assert(was.take(i + 1)[j - 1] == t[j - 1]);
            assert(was[j - 1] == was.take(i + 1)[j - 1]);
        }
        v.set(j, before);
        v.set(j - 1, entry);
        proof {
            assert(v@.take(i + 1) =~= t.insert(j - 1, e)) by {
                let target = t.insert(j - 1, e);
                let got = v@.take(i + 1);
                assert forall|k: int| 0 <= k < i + 1 implies #[trigger] got[k] == target[k] by {
                    if k != j && k != j - 1 {
                        assert(v@[k] == was[k]);
                        assert(was[k] == was.take(i + 1)[k]);
                    }
                }
            }
            assert(v@.skip(i + 1) =~= rest) by {
                let got = v@.skip(i + 1);
                assert forall|k: int| 0 <= k < rest.len() implies #[trigger] got[k] == rest[k] by {
                    assert(v@[k + i + 1] == was[k + i + 1]);
                    assert(was.skip(i + 1)[k] == was[k + i + 1]);
                }
            }
        }
        j -= 1;
    }
    proof {
        if j > 0 {
            assert(v@[j - 1] == v@.take(i + 1)[j - 1]);
            assert(v@.take(i + 1)[j - 1] == t[j - 1]);
        }
        assert(t.len() == i);
        lemma_heavier_tail_is(t, e.weight(), i - j);
    }
}

/// Puts `v` in order of weight.
pub fn sort_by_weight<E: Weighted + Copy>(v: &mut Vec<E>)
    ensures
        final(v)@ == by_weight(old(v)@),
{
    let mut i: usize = 0;
    proof {
        assert(v@.take(0) =~= by_weight(old(v)@.take(0)));
    }
    while i < v.len()
        invariant
            i <= v@.len(),
            v@.len() == old(v)@.len(),
            v@.take(i as int) == by_weight(old(v)@.take(i as int)),
            v@.skip(i as int) == old(v)@.skip(i as int),
        decreases v@.len() - i,
    {
        let ghost was = v@;
        sift(v, i);
        proof {
            assert(old(v)@.take(i + 1).drop_last() == old(v)@.take(i as int));
            assert(old(v)@.take(i + 1).last() == old(v)@[i as int]);
            assert(was[i as int] == was.skip(i as int)[0]);
            assert(old(v)@[i as int] == old(v)@.skip(i as int)[0]);
            assert(v@.skip(i + 1) =~= old(v)@.skip(i + 1)) by {
                let got = v@.skip(i + 1);
                let want = old(v)@.skip(i + 1);
                assert forall|k: int| 0 <= k < v@.len() - i - 1 implies #[trigger] got[k] == want[k] by {
                    assert(was.skip(i + 1)[k] == was.skip(i as int)[k + 1]);
                    assert(old(v)@.skip(i + 1)[k] == old(v)@.skip(i as int)[k + 1]);
                }
            }
        }
        i += 1;
    }
    proof {
        assert(v@.take(i as int) == v@);
        assert(old(v)@.take(i as int) == old(v)@);
    }
}

} // verus!
