//! Lists: keeping the elements at chosen places, and sorting identifiers.

use crate::ids::Id;
use vstd::prelude::*;

verus! {

/// The elements of `s` at the places where `keep` holds.
pub open spec fn masked<T>(s: Seq<T>, keep: Seq<bool>) -> Seq<T>
    decreases s.len(),
{
    if s.len() == 0 {
        Seq::empty()
    } else if keep[s.len() - 1] {
        masked(s.drop_last(), keep).push(s.last())
    } else {
        masked(s.drop_last(), keep)
    }
}

/// What is kept depends on the places within the list alone.
pub proof fn lemma_masked_same<T>(s: Seq<T>, k: Seq<bool>, m: Seq<bool>)
    requires
        forall|i: int| 0 <= i < s.len() ==> #[trigger] k[i] == m[i],
    ensures
        masked(s, k) == masked(s, m),
    decreases s.len(),
{
    if s.len() > 0 {
        lemma_masked_same(s.drop_last(), k, m);
        assert(k[s.len() - 1] == m[s.len() - 1]);
    }
}

/// What is kept of a list, by its first element.
pub proof fn lemma_masked_cons<T>(s: Seq<T>, keep: Seq<bool>)
    requires
        s.len() > 0,
        keep.len() == s.len(),
    ensures
        masked(s, keep) == if keep[0] {
            seq![s[0]] + masked(s.skip(1), keep.skip(1))
        } else {
            masked(s.skip(1), keep.skip(1))
        },
    decreases s.len(),
{
    let t = s.skip(1);
    let m = keep.skip(1);
    if s.len() == 1 {
        assert(s.drop_last() =~= Seq::<T>::empty());
        assert(masked(s.drop_last(), keep) =~= Seq::<T>::empty());
        assert(t =~= Seq::<T>::empty());
        assert(masked(s, keep) =~= if keep[0] {
            seq![s[0]] + masked(t, m)
        } else {
            masked(t, m)
        });
    } else {
        let k = keep.drop_last();
        lemma_masked_cons(s.drop_last(), k);
        lemma_masked_same(s.drop_last(), keep, k);
        assert(s.drop_last().skip(1) =~= t.drop_last());
        lemma_masked_same(t.drop_last(), k.skip(1), m);
        assert(m[t.len() - 1] == keep[s.len() - 1]);
        assert(t.last() == s.last());
        assert(masked(s, keep) =~= if keep[0] {
            seq![s[0]] + masked(t, m)
        } else {
            masked(t, m)
        });
    }
}

/// Keeping where a condition holds is filtering.
pub proof fn lemma_masked_filter<T>(s: Seq<T>, keep: Seq<bool>, cond: spec_fn(T) -> bool)
    requires
        forall|i: int| 0 <= i < s.len() ==> #[trigger] keep[i] == cond(s[i]),
    ensures
        masked(s, keep) == s.filter(cond),
    decreases s.len(),
{
    reveal(Seq::filter);
    if s.len() > 0 {
        lemma_masked_filter(s.drop_last(), keep, cond);
        assert(keep[s.len() - 1] == cond(s.last()));
    }
}

/// Mapping commutes with keeping.
pub proof fn lemma_masked_map<T, U>(s: Seq<T>, t: Seq<U>, keep: Seq<bool>, f: spec_fn(T) -> U)
    requires
        s.len() == t.len(),
        forall|i: int| 0 <= i < s.len() ==> #[trigger] t[i] == f(s[i]),
    ensures
        masked(t, keep).len() == masked(s, keep).len(),
        forall|i: int| 0 <= i < masked(s, keep).len() ==> #[trigger] masked(t, keep)[i] == f(masked(s, keep)[i]),
    decreases s.len(),
{
    if s.len() > 0 {
        lemma_masked_map(s.drop_last(), t.drop_last(), keep, f);
        assert(t[s.len() - 1] == f(s[s.len() - 1]));
    }
}

/// Nothing more is kept than there is, and all of it only where all is kept.
pub proof fn lemma_masked_len<T>(s: Seq<T>, keep: Seq<bool>)
    ensures
        masked(s, keep).len() <= s.len(),
        (masked(s, keep).len() == s.len()) == (forall|i: int| 0 <= i < s.len() ==> #[trigger] keep[i]),
        (forall|i: int| 0 <= i < s.len() ==> #[trigger] keep[i]) ==> masked(s, keep) == s,
    decreases s.len(),
{
    if s.len() > 0 {
        lemma_masked_len(s.drop_last(), keep);
        if forall|i: int| 0 <= i < s.len() ==> #[trigger] keep[i] {
            assert(keep[s.len() - 1]);
            assert(masked(s, keep) =~= s);
        } else if keep[s.len() - 1] {
            assert(!(forall|i: int| 0 <= i < s.drop_last().len() ==> #[trigger] keep[i])) by {
                let i = choose|i: int| 0 <= i < s.len() && !#[trigger] keep[i];
                assert(i < s.len() - 1);
            }
        }
    } else {
        assert(masked(s, keep) =~= s);
    }
}

/// What is kept comes from the list.
pub proof fn lemma_masked_contains<T>(s: Seq<T>, keep: Seq<bool>, x: T)
    ensures
        masked(s, keep).contains(x) == (exists|i: int|
            0 <= i < s.len() && #[trigger] s[i] == x && keep[i]),
    decreases s.len(),
{
    if s.len() > 0 {
        let t = s.drop_last();
        lemma_masked_contains(t, keep, x);
        let m = masked(t, keep);
        if keep[s.len() - 1] {
            assert(m.push(s.last())[m.len() as int] == s.last());
            if m.contains(x) {
                assert(m.push(s.last())[m.index_of(x)] == x);
            }
            if m.push(s.last()).contains(x) {
                let k = m.push(s.last()).index_of(x);
                if k < m.len() {
                    assert(m[k] == x);
                }
            }
        }
        if exists|i: int| 0 <= i < t.len() && #[trigger] t[i] == x && keep[i] {
            let i = choose|i: int| 0 <= i < t.len() && #[trigger] t[i] == x && keep[i];
            assert(s[i] == x);
        }
        if exists|i: int| 0 <= i < s.len() && #[trigger] s[i] == x && keep[i] {
            let i = choose|i: int| 0 <= i < s.len() && #[trigger] s[i] == x && keep[i];
            if i < t.len() {
                assert(t[i] == x);
            }
        }
    }
}

/// Drops the elements at the places where `keep` does not hold.
pub fn retain_mask<T>(v: &mut Vec<T>, keep: &Vec<bool>)
    requires
        keep.len() == old(v).len(),
    ensures
        final(v)@ == masked(old(v)@, keep@),
{
    let ghost all = v@;
    let mut i: usize = v.len();
    proof {
        assert(all.skip(i as int) =~= Seq::<T>::empty());
        assert(all.take(i as int) + masked(all.skip(i as int), keep@.skip(i as int)) =~= all);
    }
    while i > 0
        invariant
            i <= all.len(),
            keep.len() == all.len(),
            v@ == all.take(i as int) + masked(all.skip(i as int), keep@.skip(i as int)),
        decreases i,
    {
        i = i - 1;
        proof {
            lemma_masked_cons(all.skip(i as int), keep@.skip(i as int));
            assert(all.skip(i as int).skip(1) =~= all.skip(i + 1));
            assert(keep@.skip(i as int).skip(1) =~= keep@.skip(i + 1));
        }
        if !keep[i] {
            let dropped = v.remove(i);
        }
        proof {
            assert(v@ =~= all.take(i as int) + masked(all.skip(i as int), keep@.skip(i as int)));
        }
    }
    proof {
        assert(all.skip(0) =~= all);
        assert(keep@.skip(0) =~= keep@);
        assert(v@ =~= masked(all, keep@));
    }
}

/// Do the numbers of the identifiers never fall?
pub open spec fn sorted_ids<K: Id>(s: Seq<K>) -> bool {
    forall|i: int, j: int| 0 <= i <= j < s.len() ==> #[trigger] s[i].key() <= #[trigger] s[j].key()
}

/// The same identifiers, ordered by number.
pub fn sort_ids<K: Id>(items: &Vec<K>) -> (r: Vec<K>)
    ensures
        sorted_ids(r@),
        r@.to_multiset() == items@.to_multiset(),
{
    broadcast use vstd::seq_lib::group_to_multiset_ensures;

    let mut out: Vec<K> = Vec::new();
    let mut i: usize = 0;
    proof {
        assert(items@.take(0) =~= out@);
    }
    while i < items.len()
        invariant
            i <= items.len(),
            sorted_ids(out@),
            out@.to_multiset() == items@.take(i as int).to_multiset(),
        decreases items.len() - i,
    {
        broadcast use vstd::seq_lib::group_to_multiset_ensures;

        let x = items[i];
        let mut p: usize = out.len();
        while p > 0 && out[p - 1].raw() > x.raw()
            invariant
                p <= out.len(),
                sorted_ids(out@),
                forall|k: int| p <= k < out@.len() ==> (#[trigger] out@[k]).key() > x.key(),
            decreases p,
        {
            p = p - 1;
        }
        let ghost before = out@;
        out.insert(p, x);
        proof {
            assert(items@.take(i + 1) =~= items@.take(i as int).push(x));
            assert(out@ =~= before.insert(p as int, x));
            assert(sorted_ids(out@)) by {
                assert forall|a: int, b: int| 0 <= a <= b < out@.len() implies #[trigger] out@[a].key()
                    <= #[trigger] out@[b].key() by {
                    if a < p {
                        assert(out@[a] == before[a]);
                    } else if a > p {
                        assert(out@[a] == before[a - 1]);
                    }
                    if b < p {
                        assert(out@[b] == before[b]);
                    } else if b > p {
                        assert(out@[b] == before[b - 1]);
                    }
                }
            }
        }
        i = i + 1;
    }
    proof {
        assert(items@.take(items@.len() as int) =~= items@);
    }
    out
}

} // verus!
