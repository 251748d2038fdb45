//! Stable sorting by a rank of one's own.
use vstd::prelude::*;

verus! {

/// Items with an order among them.
pub trait Ranked: Sized {
    /// Whether `self` may stand before `other`.
    spec fn may_precede(&self, other: &Self) -> bool;

    /// Whether `self` may stand before `other`.
    fn precedes(&self, other: &Self) -> (r: bool)
        ensures
            r == self.may_precede(other),
    ;
}

/// Place for `x` in `s`, from the end: behind the last item that may precede it.
pub open spec fn place<T: Ranked>(s: Seq<T>, x: T) -> int
    decreases s.len(),
{
    if s.len() == 0 || s.last().may_precede(&x) {
        s.len() as int
    } else {
        place(s.drop_last(), x)
    }
}

/// The stable order of some items: each one behind those that may precede it.
pub open spec fn sorted<T: Ranked>(s: Seq<T>) -> Seq<T>
    decreases s.len(),
{
    if s.len() == 0 {
        s
    } else {
        let before = sorted(s.drop_last());
        before.insert(place(before, s.last()), s.last())
    }
}

proof fn lemma_place<T: Ranked>(s: Seq<T>, x: T)
    ensures
        0 <= place(s, x) <= s.len(),
        place(s, x) > 0 ==> s[place(s, x) - 1].may_precede(&x),
        forall|i: int| place(s, x) <= i < s.len() ==> !(#[trigger] s[i]).may_precede(&x),
    decreases s.len(),
{
    if s.len() > 0 && !s.last().may_precede(&x) {
        lemma_place(s.drop_last(), x);
        assert forall|i: int| place(s, x) <= i < s.len() implies !(#[trigger] s[i]).may_precede(
            &x,
        ) by {
            if i < s.len() - 1 {
                assert(s.drop_last()[i] == s[i]);
            }
        }
        if place(s, x) > 0 {
            assert(s.drop_last()[place(s, x) - 1] == s[place(s, x) - 1]);
        }
    }
}

/// Sorts items, keeping the order of those that may precede each other.
pub fn sort<T: Ranked>(items: Vec<T>) -> (r: Vec<T>)
    ensures
        r@ == sorted(items@),
{
    let ghost all = items@;
    let mut rest = items;
    let mut out: Vec<T> = Vec::new();
    let mut reversed: Vec<T> = Vec::new();
    while rest.len() > 0
        invariant
            rest@.len() + reversed@.len() == all.len(),
            rest@ == all.take(rest@.len() as int),
            forall|i: int| 0 <= i < reversed@.len() ==> reversed@[i] == all[all.len() - 1 - i],
        decreases rest.len(),
    {
        let item = rest.pop();
        if let Some(x) = item {
            reversed.push(x);
        }
        assert(rest@ =~= all.take(rest@.len() as int));
    }
    assert(all.take(0) =~= Seq::<T>::empty());
    while reversed.len() > 0
        invariant
            reversed@.len() <= all.len(),
            forall|i: int| 0 <= i < reversed@.len() ==> reversed@[i] == all[all.len() - 1 - i],
            out@ == sorted(all.take(all.len() - reversed@.len())),
        decreases reversed.len(),
    {
        let ghost done = all.len() - reversed@.len();
        let item = reversed.pop();
        if let Some(x) = item {
            let mut at: usize = out.len();
            assert(out@.take(at as int) =~= out@);
            while at > 0 && !out[at - 1].precedes(&x)
                invariant
                    at <= out@.len(),
                    place(out@.take(at as int), x) == place(out@, x),
                decreases at,
            {
                assert(out@.take(at as int).drop_last() =~= out@.take(at - 1));
                at -= 1;
            }
            proof {
                assert(all.take(done + 1).drop_last() =~= all.take(done as int));
                assert(all.take(done + 1).last() == x);
                if at > 0 {
                    assert(out@.take(at as int).last() == out@[at - 1]);
                }
            }
            out.insert(at, x);
        }
    }
    assert(all.take(all.len() as int) =~= all);
    out
}

/// Sorting keeps every item as often as it was there.
pub proof fn lemma_sorted_keeps_items<T: Ranked>(s: Seq<T>)
    ensures
        sorted(s).to_multiset() == s.to_multiset(),
        sorted(s).len() == s.len(),
    decreases s.len(),
{
    if s.len() > 0 {
        let before = sorted(s.drop_last());
        lemma_sorted_keeps_items(s.drop_last());
        lemma_place(before, s.last());
        let at = place(before, s.last());
        vstd::seq_lib::to_multiset_insert(before, at, s.last());
        vstd::seq_lib::to_multiset_build(s.drop_last(), s.last());
        assert(s.drop_last().push(s.last()) =~= s);
    }
}

/// Sorting by a total and transitive order gives that order.
pub proof fn lemma_sorted_is_ordered<T: Ranked>(s: Seq<T>)
    requires
        forall|a: T, b: T| #[trigger] a.may_precede(&b) || b.may_precede(&a),
        forall|a: T, b: T, c: T| #[trigger]
            a.may_precede(&b) && #[trigger] b.may_precede(&c) ==> a.may_precede(&c),
    ensures
        forall|i: int, j: int|
            #![trigger sorted(s)[i], sorted(s)[j]]
            0 <= i < j < sorted(s).len() ==> sorted(s)[i].may_precede(&sorted(s)[j]),
    decreases s.len(),
{
    if s.len() > 0 {
        let x = s.last();
        let before = sorted(s.drop_last());
        lemma_sorted_is_ordered(s.drop_last());
        lemma_place(before, x);
        let at = place(before, x);
        let after = sorted(s);
        assert forall|i: int, j: int|
            #![trigger after[i], after[j]]
            0 <= i < j < after.len() implies after[i].may_precede(&after[j]) by {
            if j == at {
                assert(after[i] == before[i]);
                if i < at - 1 {
                    assert(before[i].may_precede(&before[at - 1]));
                }
            } else if i == at {
                assert(after[j] == before[j - 1]);
                assert(!before[j - 1].may_precede(&x));
            } else {
                let bi = if i < at {
                    i
                } else {
                    i - 1
                };
                let bj = if j < at {
                    j
                } else {
                    j - 1
                };
                assert(after[i] == before[bi] && after[j] == before[bj]);
            }
        }
    }
}

} // verus!
